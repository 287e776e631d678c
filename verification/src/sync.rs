use crate::element::Element;
use crate::graph::{connected, is_labelling, label_used, layer_exists, lemma_connected_labels};
use crate::history::views;
use crate::layers::is_fresh_id;
use crate::mesh::{Layer, LayerView, Mesh, MeshView};
use vstd::prelude::*;

verus! {

broadcast use vstd::seq_lib::group_seq_properties;

/// The test for the layer `id`.
pub open spec fn on_layer(id: u32) -> spec_fn(u32) -> bool {
    |x: u32| x == id
}

/// The number of vertices on the layer `id`.
pub open spec fn layer_size(vertex_layers: Seq<u32>, id: u32) -> nat {
    vertex_layers.filter(on_layer(id)).len()
}

/// The position of the last layer with id `id`, or -1 when there is none.
pub open spec fn last_rank(layers: Seq<LayerView>, id: u32) -> int
    decreases layers.len(),
{
    if layers.len() == 0 {
        -1
    } else if layers.last().id == id {
        layers.len() - 1
    } else {
        last_rank(layers.drop_last(), id)
    }
}

/// Layer `a` is preferred to layer `b` as the owner of a component: it has more
/// vertices, or as many and stands higher in the layer list.
pub open spec fn preferred(mesh: MeshView, a: u32, b: u32) -> bool {
    let (sa, sb) = (layer_size(mesh.vertex_layers, a), layer_size(mesh.vertex_layers, b));
    sa > sb || (sa == sb && last_rank(mesh.layers, a) < last_rank(mesh.layers, b))
}

/// `owner` is the layer that the component of vertex `v` keeps: the layer of one of its
/// vertices, preferred to the layers of all the others.
pub open spec fn owns(mesh: MeshView, v: int, owner: u32) -> bool {
    &&& exists|u: int| 0 <= u < mesh.vertices.len() && connected(mesh.edges, v as usize, u as usize) && mesh.vertex_layers[u] == owner
    &&& forall|w: int| 0 <= w < mesh.vertices.len() && connected(mesh.edges, v as usize, w as usize)
        ==> !preferred(mesh, #[trigger] mesh.vertex_layers[w], owner)
}

/// Some layer of `layers` has id `owner` and the given kind.
pub open spec fn has_kind(layers: Seq<LayerView>, owner: u32, curve: bool, holdout: bool) -> bool {
    exists|i: int| 0 <= i < layers.len() && layers[i].id == owner && layers[i].curve == curve && layers[i].holdout == holdout
}

/// What `sync_layers` makes of a mesh `before`: one layer per component, each layer
/// in use, each of the kind of the layer its component keeps.
pub open spec fn synced(before: MeshView, after: MeshView) -> bool {
    let n = before.vertices.len();
    &&& after == (MeshView { layers: after.layers, vertex_layers: after.vertex_layers, ..before })
    &&& after.well_formed()
    &&& forall|v: int, u: int| 0 <= v < n && 0 <= u < n ==> (#[trigger] after.vertex_layers[v] == #[trigger] after.vertex_layers[u]
        <==> connected(before.edges, v as usize, u as usize))
    &&& forall|j: int| 0 <= j < after.layers.len() ==> is_listed(after.vertex_layers, #[trigger] after.layers[j].id)
    &&& forall|v: int, j: int| 0 <= v < n && 0 <= j < after.layers.len() && #[trigger] after.layers[j].id == #[trigger] after.vertex_layers[v]
        ==> exists|owner: u32| owns(before, v, owner) && has_kind(before.layers, owner, after.layers[j].curve, after.layers[j].holdout)
}

} // verus!

verus! {

proof fn lemma_preferred_order(mesh: MeshView, a: u32, b: u32, c: u32)
    ensures
        !preferred(mesh, a, a),
        preferred(mesh, a, b) && preferred(mesh, b, c) ==> preferred(mesh, a, c),
{
}

proof fn lemma_last_rank(layers: Seq<LayerView>, id: u32)
    ensures
        -1 <= last_rank(layers, id) < layers.len(),
        last_rank(layers, id) >= 0 ==> layers[last_rank(layers, id)].id == id,
        last_rank(layers, id) >= 0 ==> forall|j: int| last_rank(layers, id) < j < layers.len() ==> layers[j].id != id,
        last_rank(layers, id) == -1 ==> !layer_exists(layers, id),
    decreases layers.len(),
{
    if layers.len() > 0 {
        lemma_last_rank(layers.drop_last(), id);
        assert forall|j: int| 0 <= j < layers.len() - 1 implies layers[j] == layers.drop_last()[j] by {}
        if layers.last().id != id && last_rank(layers.drop_last(), id) == -1 {
            if layer_exists(layers, id) {
                let i = choose|i: int| 0 <= i < layers.len() && layers[i].id == id;
                assert(layers.drop_last()[i].id == id);
            }
        }
    }
}

impl Mesh {
    /// The number of vertices on the layer `id`.
    fn layer_size_of(&self, id: u32) -> (size: usize)
        ensures
            size == layer_size(self@.vertex_layers, id),
    {
        let ghost vl = self@.vertex_layers;
        let ghost pred = on_layer(id);
        let mut size: usize = 0;
        let mut v: usize = 0;
        while v < self.vertex_layers.len()
            invariant
                v <= self.vertex_layers@.len(),
                vl == self@.vertex_layers,
                pred == on_layer(id),
                size == vl.take(v as int).filter(pred).len(),
                size <= v,
            decreases self.vertex_layers@.len() - v,
        {
            proof {
                assert(vl.take(v + 1) =~= vl.take(v as int).push(vl[v as int]));
                vl.take(v as int).lemma_filter_push(vl[v as int], pred);
            }
            if self.vertex_layers[v] == id {
                size = size + 1;
            }
            v = v + 1;
        }
        assert(vl.take(vl.len() as int) =~= vl);
        size
    }

    /// The position of the last layer with id `id`.
    #[verifier::spinoff_prover]
    #[verifier::rlimit(30)]
    fn rank_of(&self, id: u32) -> (rank: usize)
        requires
            layer_exists(self@.layers, id),
        ensures
            rank == last_rank(self@.layers, id),
    {
        let ghost layers = self@.layers;
        proof {
            lemma_last_rank(layers, id);
        }
        let mut rank: usize = 0;
        let mut i: usize = 0;
        while i < self.layers.len()
            invariant
                i <= self.layers@.len(),
                layers == self@.layers,
                last_rank(layers.take(i as int), id) == -1 || rank == last_rank(layers.take(i as int), id),
                layer_exists(layers, id),
                -1 <= last_rank(layers, id) < layers.len(),
                last_rank(layers, id) >= 0,
            decreases self.layers@.len() - i,
        {
            assert(layers.take(i + 1).drop_last() =~= layers.take(i as int));
            assert(layers[i as int].id == self.layers@[i as int].id);
            if self.layers[i].id == id {
                rank = i;
            }
            i = i + 1;
        }
        assert(layers.take(layers.len() as int) =~= layers);
        rank
    }

    /// Whether layer `a` is preferred to layer `b` as the owner of a component.
    fn prefer(&self, a: u32, b: u32) -> (better: bool)
        requires
            layer_exists(self@.layers, a),
            layer_exists(self@.layers, b),
        ensures
            better == preferred(self@, a, b),
    {
        let (sa, sb) = (self.layer_size_of(a), self.layer_size_of(b));
        sa > sb || (sa == sb && self.rank_of(a) < self.rank_of(b))
    }
}

} // verus!

verus! {

/// `owner` is the layer that component `c` keeps: the layer of one of its vertices,
/// preferred to the layers of all the others.
pub open spec fn component_owner(mesh: MeshView, labels: Seq<usize>, c: int, owner: u32) -> bool {
    &&& exists|u: int| 0 <= u < labels.len() && labels[u] == c && mesh.vertex_layers[u] == owner
    &&& forall|w: int| 0 <= w < labels.len() && labels[w] == c ==> !preferred(mesh, #[trigger] mesh.vertex_layers[w], owner)
}

impl Mesh {
    /// For each component, the layer it keeps.
    fn component_owners(&self, labels: &Vec<usize>, count: usize) -> (owners: Vec<u32>)
        requires
            self@.well_formed(),
            is_labelling(self@, labels@, count),
        ensures
            owners@.len() == count,
            forall|c: int| 0 <= c < count ==> component_owner(self@, labels@, c, #[trigger] owners@[c]),
    {
        let n = self.vertices.len();
        let ghost m = self@;
        let mut best: Vec<Option<u32>> = Vec::new();
        let mut k: usize = 0;
        while k < count
            invariant
                k <= count,
                best@.len() == k,
                forall|c: int| 0 <= c < k ==> #[trigger] best@[c] is None,
            decreases count - k,
        {
            best.push(None);
            k = k + 1;
        }
        let mut v: usize = 0;
        while v < n
            invariant
                v <= n == self.vertices@.len(),
                m == self@,
                m.well_formed(),
                is_labelling(m, labels@, count),
                best@.len() == count,
                forall|c: int| 0 <= c < count ==> (#[trigger] best@[c] is None <==> !exists|u: int| 0 <= u < v && labels@[u] == c),
                forall|c: int| 0 <= c < count && #[trigger] best@[c] is Some ==> {
                    let o = best@[c].unwrap();
                    &&& exists|u: int| 0 <= u < v && labels@[u] == c && m.vertex_layers[u] == o
                    &&& forall|w: int| 0 <= w < v && labels@[w] == c ==> !preferred(m, #[trigger] m.vertex_layers[w], o)
                    &&& layer_exists(m.layers, o)
                },
            decreases n - v,
        {
            let c = labels[v];
            let id = self.vertex_layers[v];
            assert(layer_exists(m.layers, m.vertex_layers[v as int]));
            let replace = match best[c] {
                None => true,
                Some(current) => self.prefer(id, current),
            };
            let ghost prior = best@;
            if replace {
                best.set(c, Some(id));
            }
            proof {
                assert forall|d: int| 0 <= d < count implies (#[trigger] best@[d] is None <==> !exists|u: int| 0 <= u < v + 1 && labels@[u] == d) by {
                    if d == c {
                        assert(labels@[v as int] == d);
                    }
                }
                assert forall|d: int| 0 <= d < count && #[trigger] best@[d] is Some implies {
                    let o = best@[d].unwrap();
                    &&& exists|u: int| 0 <= u < v + 1 && labels@[u] == d && m.vertex_layers[u] == o
                    &&& forall|w: int| 0 <= w < v + 1 && labels@[w] == d ==> !preferred(m, #[trigger] m.vertex_layers[w], o)
                    &&& layer_exists(m.layers, o)
                } by {
                    let o = best@[d].unwrap();
                    if d == c {
                        if replace {
                            assert(labels@[v as int] == d && m.vertex_layers[v as int] == o);
                            if prior[d] is Some {
                                let cur = prior[d].unwrap();
                                assert forall|w: int| 0 <= w < v + 1 && labels@[w] == d implies !preferred(m, #[trigger] m.vertex_layers[w], o) by {
                                    lemma_preferred_order(m, m.vertex_layers[w], o, cur);
                                }
                            } else {
                                assert forall|w: int| 0 <= w < v + 1 && labels@[w] == d implies !preferred(m, #[trigger] m.vertex_layers[w], o) by {
                                    lemma_preferred_order(m, o, o, o);
                                    if w < v {
                                        assert(exists|u: int| 0 <= u < v && labels@[u] == d);
                                    }
                                }
                            }
                        } else {
                            assert(prior[d] is Some);
                        }
                    }
                }
            }
            v = v + 1;
        }
        let mut owners: Vec<u32> = Vec::new();
        let mut k: usize = 0;
        while k < count
            invariant
                k <= count,
                n == self.vertices@.len(),
                m == self@,
                is_labelling(m, labels@, count),
                best@.len() == count,
                forall|c: int| 0 <= c < count ==> (#[trigger] best@[c] is None <==> !exists|u: int| 0 <= u < n && labels@[u] == c),
                forall|c: int| 0 <= c < count && #[trigger] best@[c] is Some ==> {
                    let o = best@[c].unwrap();
                    &&& exists|u: int| 0 <= u < n && labels@[u] == c && m.vertex_layers[u] == o
                    &&& forall|w: int| 0 <= w < n && labels@[w] == c ==> !preferred(m, #[trigger] m.vertex_layers[w], o)
                },
                owners@.len() == k,
                forall|c: int| 0 <= c < k ==> component_owner(m, labels@, c, #[trigger] owners@[c]),
            decreases count - k,
        {
            assert(label_used(labels@, k as int));
            match best[k] {
                Some(o) => {
                    owners.push(o);
                    proof {
                        assert forall|c: int| 0 <= c < k + 1 implies component_owner(m, labels@, c, #[trigger] owners@[c]) by {
                            if c == k {
                                assert(best@[c] is Some);
                            }
                        }
                    }
                },
                None => {
                    proof {
                        let u = choose|u: int| 0 <= u < labels@.len() && labels@[u] == k;
                        assert(exists|u: int| 0 <= u < n && labels@[u] == k as int);
                    }
                    return owners;
                },
            }
            k = k + 1;
        }
        owners
    }
}

} // verus!

verus! {

/// Whether `x` occurs in `list`.
pub open spec fn is_listed(list: Seq<u32>, x: u32) -> bool {
    exists|k: int| 0 <= k < list.len() && list[k] == x
}

/// Where `x` occurs in `list` before position `k`, it occurs a first time.
proof fn lemma_first_occurrence(list: Seq<u32>, x: u32, k: int)
    requires
        0 <= k <= list.len(),
        is_listed(list.take(k), x),
    ensures
        exists|i: int| 0 <= i < k && list[i] == x && !is_listed(list.take(i), x),
    decreases k,
{
    if is_listed(list.take(k - 1), x) {
        lemma_first_occurrence(list, x, k - 1);
    } else {
        let i = choose|i: int| 0 <= i < k && list.take(k)[i] == x;
        if i < k - 1 {
            assert(list.take(k - 1)[i] == x);
        }
        assert(list[k - 1] == x);
        assert(list.take(k - 1) =~= list.take(k - 1));
    }
}

/// For each entry, whether an equal entry stands before it.
fn repeats(list: &Vec<u32>) -> (flags: Vec<bool>)
    ensures
        flags@.len() == list@.len(),
        forall|k: int| 0 <= k < list@.len() ==> #[trigger] flags@[k] == is_listed(list@.take(k), list@[k]),
{
    let mut flags: Vec<bool> = Vec::new();
    let mut k: usize = 0;
    while k < list.len()
        invariant
            k <= list@.len(),
            flags@.len() == k,
            forall|j: int| 0 <= j < k ==> #[trigger] flags@[j] == is_listed(list@.take(j), list@[j]),
        decreases list@.len() - k,
    {
        let mut seen = false;
        let mut i: usize = 0;
        while i < k
            invariant
                i <= k < list@.len(),
                seen == exists|j: int| 0 <= j < i && list@[j] == list@[k as int],
            decreases k - i,
        {
            if list[i] == list[k] {
                seen = true;
            }
            i = i + 1;
        }
        proof {
            if seen {
                let j = choose|j: int| 0 <= j < k && list@[j] == list@[k as int];
                assert(list@.take(k as int)[j] == list@[k as int]);
            }
            if is_listed(list@.take(k as int), list@[k as int]) {
                let j = choose|j: int| 0 <= j < k && list@.take(k as int)[j] == list@[k as int];
                assert(list@[j] == list@[k as int]);
            }
        }
        flags.push(seen);
        k = k + 1;
    }
    flags
}

/// Whether `x` occurs in `list`.
fn contains_id(list: &Vec<u32>, x: u32) -> (found: bool)
    ensures
        found == is_listed(list@, x),
{
    let mut i: usize = 0;
    while i < list.len()
        invariant
            i <= list@.len(),
            forall|j: int| 0 <= j < i ==> list@[j] != x,
        decreases list@.len() - i,
    {
        if list[i] == x {
            return true;
        }
        i = i + 1;
    }
    false
}

impl Mesh {
    /// The position of the first layer with id `id`.
    fn first_position(&self, id: u32) -> (position: usize)
        requires
            layer_exists(self@.layers, id),
        ensures
            crate::layers::first_with_id(self@.layers, id, position as int),
    {
        let ghost layers = self@.layers;
        let mut i: usize = 0;
        while i < self.layers.len()
            invariant
                i <= self.layers@.len(),
                layers == self@.layers,
                layer_exists(layers, id),
                forall|j: int| 0 <= j < i ==> layers[j].id != id,
            decreases self.layers@.len() - i,
        {
            assert(layers[i as int].id == self.layers@[i as int].id);
            if self.layers[i].id == id {
                return i;
            }
            i = i + 1;
        }
        proof {
            let j = choose|j: int| 0 <= j < layers.len() && layers[j].id == id;
            assert(layers[j].id != id);
        }
        0
    }

    /// Keeps only the layers whose ids are among `owners`, in their order.
    fn keep_owned_layers(&mut self, owners: &Vec<u32>)
        requires
            forall|k: int| 0 <= k < owners@.len() ==> layer_exists(old(self)@.layers, #[trigger] owners@[k]),
        ensures
            final(self)@ == (MeshView { layers: final(self)@.layers, ..old(self)@ }),
            final(self)@.layers == old(self)@.layers.filter(|layer: LayerView| is_listed(owners@, layer.id)),
            final(self)@.layers.len() <= old(self)@.layers.len(),
            forall|j: int| 0 <= j < final(self)@.layers.len() ==> is_listed(owners@, #[trigger] final(self)@.layers[j].id)
                && has_kind(old(self)@.layers, final(self)@.layers[j].id, final(self)@.layers[j].curve, final(self)@.layers[j].holdout),
            forall|k: int| 0 <= k < owners@.len() ==> layer_exists(final(self)@.layers, #[trigger] owners@[k]),
    {
        let ghost layers = self@.layers;
        let ghost pred = |layer: LayerView| is_listed(owners@, layer.id);
        let mut kept: Vec<Layer> = Vec::new();
        let mut i: usize = 0;
        while i < self.layers.len()
            invariant
                i <= self.layers@.len(),
                layers == self@.layers,
                self@ == old(self)@,
                pred == |layer: LayerView| is_listed(owners@, layer.id),
                views(kept@) == layers.take(i as int).filter(pred),
                kept@.len() <= i,
                forall|j: int| 0 <= j < kept@.len() ==> is_listed(owners@, #[trigger] kept@[j]@.id)
                    && has_kind(layers, kept@[j]@.id, kept@[j]@.curve, kept@[j]@.holdout),
                forall|m: int| 0 <= m < i && is_listed(owners@, layers[m].id) ==> layer_exists(views(kept@), #[trigger] layers[m].id),
            decreases self.layers@.len() - i,
        {
            assert(layers[i as int] == self.layers@[i as int]@);
            proof {
                assert(layers.take(i + 1) =~= layers.take(i as int).push(layers[i as int]));
                layers.take(i as int).lemma_filter_push(layers[i as int], pred);
            }
            if contains_id(owners, self.layers[i].id) {
                let copy = self.layers[i].duplicate();
                let ghost prior = kept@;
                kept.push(copy);
                proof {
                    assert(views(kept@) =~= views(prior).push(copy@));
                    assert(views(kept@)[prior.len() as int].id == layers[i as int].id);
                    assert forall|m: int| 0 <= m < i + 1 && is_listed(owners@, layers[m].id) implies layer_exists(views(kept@), #[trigger] layers[m].id) by {
                        if m < i {
                            let j = choose|j: int| 0 <= j < prior.len() && views(prior)[j].id == layers[m].id;
                            assert(views(kept@)[j] == views(prior)[j]);
                        }
                    }
                    assert(has_kind(layers, copy@.id, copy@.curve, copy@.holdout)) by {
                        assert(layers[i as int] == copy@);
                    }
                }
            }
            i = i + 1;
        }
        self.layers = kept;
        proof {
            assert(layers.take(layers.len() as int) =~= layers);
            assert forall|k: int| 0 <= k < owners@.len() implies layer_exists(self@.layers, #[trigger] owners@[k]) by {
                let m = choose|m: int| 0 <= m < layers.len() && layers[m].id == owners@[k];
                assert(is_listed(owners@, layers[m].id));
            }
            assert(self@ =~= MeshView { layers: self@.layers, ..old(self)@ });
        }
    }
}

} // verus!

verus! {

/// Inserting a layer keeps every id and adds the inserted one.
proof fn lemma_exists_after_insert_at(layers: Seq<LayerView>, at: int, layer: LayerView, id: u32)
    requires
        0 <= at <= layers.len(),
    ensures
        layer_exists(layers.insert(at, layer), id) <==> (layer_exists(layers, id) || layer.id == id),
{
    let grown = layers.insert(at, layer);
    if layer_exists(layers, id) {
        let i = choose|i: int| 0 <= i < layers.len() && layers[i].id == id;
        if i < at {
            assert(grown[i] == layers[i]);
        } else {
            assert(grown[i + 1] == layers[i]);
        }
    }
    if layer_exists(grown, id) {
        let i = choose|i: int| 0 <= i < grown.len() && grown[i].id == id;
        if i < at {
            assert(layers[i] == grown[i]);
        } else if i > at {
            assert(layers[i - 1] == grown[i]);
        }
    }
    assert(grown[at] == layer);
}

/// No two layers have the same id.
pub open spec fn ids_distinct(layers: Seq<LayerView>) -> bool {
    forall|i: int, j: int| 0 <= i < j < layers.len() ==> layers[i].id != layers[j].id
}

/// Keeping some of the layers keeps their ids distinct, and every id kept was there.
proof fn lemma_filter_ids(layers: Seq<LayerView>, pred: spec_fn(LayerView) -> bool)
    ensures
        ids_distinct(layers) ==> ids_distinct(layers.filter(pred)),
        forall|id: u32| layer_exists(layers.filter(pred), id) ==> layer_exists(layers, id),
    decreases layers.len(),
{
    reveal(Seq::filter);
    if layers.len() > 0 {
        let prior = layers.drop_last();
        lemma_filter_ids(prior, pred);
        let kept = prior.filter(pred);
        let last = layers.last();
        assert forall|id: u32| layer_exists(layers.filter(pred), id) implies layer_exists(layers, id) by {
            let i = choose|i: int| 0 <= i < layers.filter(pred).len() && layers.filter(pred)[i].id == id;
            if i < kept.len() {
                assert(layers.filter(pred)[i] == kept[i]);
                assert(layer_exists(prior, id));
                let j = choose|j: int| 0 <= j < prior.len() && prior[j].id == id;
                assert(layers[j] == prior[j]);
            } else {
                assert(layers[layers.len() - 1] == last);
            }
        }
        if ids_distinct(layers) {
            assert forall|i: int, j: int| 0 <= i < j < prior.len() implies prior[i].id != prior[j].id by {
                assert(prior[i] == layers[i] && prior[j] == layers[j]);
            }
            if pred(last) {
                let grown = kept.push(last);
                assert forall|i: int, j: int| 0 <= i < j < grown.len() implies grown[i].id != grown[j].id by {
                    if j == kept.len() {
                        assert(grown[i] == kept[i]);
                        assert(layer_exists(kept, kept[i].id));
                        assert(layer_exists(prior, kept[i].id));
                        let q = choose|q: int| 0 <= q < prior.len() && prior[q].id == kept[i].id;
                        assert(layers[q] == prior[q]);
                        assert(layers[layers.len() - 1] == last);
                    } else {
                        assert(grown[i] == kept[i] && grown[j] == kept[j]);
                    }
                }
            }
        }
    }
}

/// Putting in a layer whose id no layer has keeps the ids distinct.
proof fn lemma_insert_ids(layers: Seq<LayerView>, at: int, layer: LayerView)
    requires
        ids_distinct(layers),
        0 <= at <= layers.len(),
        !layer_exists(layers, layer.id),
    ensures
        ids_distinct(layers.insert(at, layer)),
{
    let grown = layers.insert(at, layer);
    assert forall|i: int, j: int| 0 <= i < j < grown.len() implies grown[i].id != grown[j].id by {
        if i == at {
            if j > at {
                assert(grown[j] == layers[j - 1]);
            }
        } else if j == at {
            assert(grown[i] == layers[i]);
        } else {
            let a = if i < at { i } else { i - 1 };
            let b = if j < at { j } else { j - 1 };
            assert(grown[i] == layers[a]);
            assert(grown[j] == layers[b]);
        }
    }
}

/// The claims on the layers while `sync_layers` hands each component its own layer:
/// `orig` are the owners the components started with, `owners` what they have now,
/// the first `done` of them settled.
pub open spec fn claims_hold(before: MeshView, layers: Seq<LayerView>, orig: Seq<u32>, owners: Seq<u32>, done: int) -> bool {
    let count = orig.len();
    &&& owners.len() == count
    &&& forall|i: int| done <= i < count ==> #[trigger] owners[i] == orig[i]
    &&& forall|i: int| 0 <= i < done && #[trigger] owners[i] != orig[i] ==> !is_listed(orig, owners[i])
    &&& forall|i: int| 0 <= i < done && !is_listed(orig.take(i), orig[i]) ==> #[trigger] owners[i] == orig[i]
    &&& forall|a: int, b: int| 0 <= a < b < done ==> #[trigger] owners[a] != #[trigger] owners[b]
    &&& forall|i: int| 0 <= i < count ==> layer_exists(layers, #[trigger] owners[i])
    &&& forall|i: int| 0 <= i < count ==> layer_exists(layers, #[trigger] orig[i])
    &&& forall|j: int| 0 <= j < layers.len() ==> is_listed(owners, #[trigger] layers[j].id)
    &&& forall|j: int| 0 <= j < layers.len() && is_listed(orig, #[trigger] layers[j].id)
        ==> has_kind(before.layers, layers[j].id, layers[j].curve, layers[j].holdout)
    &&& forall|j: int| 0 <= j < layers.len() && !is_listed(orig, #[trigger] layers[j].id)
        ==> exists|i: int| 0 <= i < count && #[trigger] owners[i] == layers[j].id && has_kind(before.layers, orig[i], layers[j].curve, layers[j].holdout)
}

/// The layer that component `c` keeps (see `component_owner`).
pub open spec fn owner_of(mesh: MeshView, labels: Seq<usize>, c: int) -> u32 {
    choose|owner: u32| component_owner(mesh, labels, c, owner)
}

/// The smallest id from 1 on that no layer has.
pub open spec fn fresh_id(layers: Seq<LayerView>) -> u32 {
    choose|id: u32| is_fresh_id(layers, id)
}

/// The position of the first layer with id `id`.
pub open spec fn first_at(layers: Seq<LayerView>, id: u32) -> int {
    choose|i: int| crate::layers::first_with_id(layers, id, i)
}

/// Component `k` settles its layer, given the layers and the layers the components have
/// so far, `orig` being the layers they keep: when a component before it keeps the same
/// layer, it gets a new empty layer with a fresh id and the kind of the first layer with
/// that id, right above that layer when `above` holds, else right below it.
pub open spec fn claim(layers: Seq<LayerView>, owners: Seq<u32>, orig: Seq<u32>, k: int, above: bool) -> (Seq<LayerView>, Seq<u32>) {
    if is_listed(orig.take(k), orig[k]) {
        let id = fresh_id(layers);
        let position = first_at(layers, orig[k]);
        let at = if above { position } else { position + 1 };
        let layer = LayerView { id, curve: layers[position].curve, holdout: layers[position].holdout, name: Seq::empty() };
        (layers.insert(at, layer), owners.update(k, id))
    } else {
        (layers, owners)
    }
}

/// The layers and the components' layers once the first `k` components settled theirs.
pub open spec fn claims(layers: Seq<LayerView>, orig: Seq<u32>, above: bool, k: nat) -> (Seq<LayerView>, Seq<u32>)
    decreases k,
{
    if k == 0 {
        (layers, orig)
    } else {
        let (prior, owners) = claims(layers, orig, above, (k - 1) as nat);
        claim(prior, owners, orig, k - 1, above)
    }
}

/// What `sync_layers` makes of `mesh`: the components, numbered in order of their first
/// vertices, keep their layers; the layers no component keeps go; the components settle
/// their layers in order (see `claim`); each vertex goes on its component's layer.
pub open spec fn sync_result(mesh: MeshView, above: bool) -> MeshView {
    let (labels, count) = crate::graph::component_labels(mesh);
    let orig = Seq::new(count as nat, |c: int| owner_of(mesh, labels, c));
    let kept = mesh.layers.filter(|layer: LayerView| is_listed(orig, layer.id));
    let (layers, owners) = claims(kept, orig, above, count as nat);
    MeshView {
        layers,
        vertex_layers: Seq::new(mesh.vertices.len(), |v: int| owners[labels[v] as int]),
        ..mesh
    }
}

proof fn lemma_owner_unique(mesh: MeshView, labels: Seq<usize>, c: int, a: u32, b: u32)
    requires
        mesh.well_formed(),
        labels.len() == mesh.vertices.len(),
        component_owner(mesh, labels, c, a),
        component_owner(mesh, labels, c, b),
    ensures
        a == b,
{
    let ua = choose|u: int| 0 <= u < labels.len() && labels[u] == c && mesh.vertex_layers[u] == a;
    let ub = choose|u: int| 0 <= u < labels.len() && labels[u] == c && mesh.vertex_layers[u] == b;
    assert(!preferred(mesh, mesh.vertex_layers[ub], a));
    assert(!preferred(mesh, mesh.vertex_layers[ua], b));
    assert(layer_exists(mesh.layers, mesh.vertex_layers[ua]));
    assert(layer_exists(mesh.layers, mesh.vertex_layers[ub]));
    lemma_last_rank(mesh.layers, a);
    lemma_last_rank(mesh.layers, b);
}

proof fn lemma_fresh_unique(layers: Seq<LayerView>, a: u32, b: u32)
    requires
        is_fresh_id(layers, a),
        is_fresh_id(layers, b),
    ensures
        a == b,
{
    if a < b {
        assert(layer_exists(layers, a));
    } else if b < a {
        assert(layer_exists(layers, b));
    }
}

proof fn lemma_first_unique(layers: Seq<LayerView>, id: u32, a: int, b: int)
    requires
        crate::layers::first_with_id(layers, id, a),
        crate::layers::first_with_id(layers, id, b),
    ensures
        a == b,
{
}

/// When a component's layer is already kept by a component before it, the component
/// gets a new empty layer whose id is the smallest from 1 on that no layer has, of the
/// kind of the first layer with the kept id, placed right above that layer when
/// `above` holds and right below it otherwise; the other layers stay in their order.
/// A component whose layer no earlier component keeps changes nothing.
pub proof fn lemma_claim_places_new_layer(
    layers: Seq<LayerView>,
    owners: Seq<u32>,
    orig: Seq<u32>,
    k: int,
    above: bool,
    id: u32,
    position: int,
)
    requires
        0 <= k < orig.len(),
        is_fresh_id(layers, id),
        crate::layers::first_with_id(layers, orig[k], position),
    ensures
        is_listed(orig.take(k), orig[k]) ==> claim(layers, owners, orig, k, above) == (
            layers.insert(
                if above { position } else { position + 1 },
                LayerView { id, curve: layers[position].curve, holdout: layers[position].holdout, name: Seq::empty() },
            ),
            owners.update(k, id),
        ),
        !is_listed(orig.take(k), orig[k]) ==> claim(layers, owners, orig, k, above) == (layers, owners),
{
    lemma_fresh_unique(layers, id, fresh_id(layers));
    lemma_first_unique(layers, orig[k], position, first_at(layers, orig[k]));
}

/// The layers `sync_layers` computes are those `sync_result` names.
proof fn lemma_sync_result(before: MeshView, above: bool, labels: Seq<usize>, count: usize, orig: Seq<u32>,
    kept: Seq<LayerView>, owners: Seq<u32>, after: MeshView)
    requires
        before.well_formed(),
        before.vertices.len() <= usize::MAX,
        is_labelling(before, labels, count),
        crate::graph::numbered_in_order(labels),
        orig.len() == count,
        forall|c: int| 0 <= c < count ==> component_owner(before, labels, c, #[trigger] orig[c]),
        kept == before.layers.filter(|layer: LayerView| is_listed(orig, layer.id)),
        claims(kept, orig, above, count as nat) == (after.layers, owners),
        after == (MeshView { layers: after.layers, vertex_layers: after.vertex_layers, ..before }),
        after.vertex_layers.len() == before.vertices.len(),
        forall|v: int| 0 <= v < labels.len() ==> #[trigger] after.vertex_layers[v] == owners[labels[v] as int],
    ensures
        after == sync_result(before, above),
{
    assert(is_labelling(before, labels, count) && crate::graph::numbered_in_order(labels));
    let (l0, c0) = crate::graph::component_labels(before);
    crate::graph::lemma_labels_unique(before, labels, count, l0, c0);
    assert forall|c: int| 0 <= c < count implies owner_of(before, labels, c) == #[trigger] orig[c] by {
        assert(component_owner(before, labels, c, orig[c]));
        lemma_owner_unique(before, labels, c, orig[c], owner_of(before, labels, c));
    }
    let spec_orig = Seq::new(count as nat, |c: int| owner_of(before, labels, c));
    assert(orig =~= spec_orig);
    let result = sync_result(before, above);
    assert(result.vertex_layers =~= after.vertex_layers);
    assert(result =~= after);
}

impl Mesh {
    /// Gives each component of the mesh a layer of its own.
    ///
    /// Each component keeps the layer that most of its vertices are on (the higher one in
    /// the layer list on a tie); layers that no component keeps go away. Where components
    /// keep the same layer, the first keeps it and each other gets a new empty layer of
    /// the same kind, right above the kept one when `above` holds, else right below it.
    pub fn sync_layers(&mut self, above: bool)
        requires
            old(self)@.well_formed(),
            old(self).layers@.len() + old(self).vertices@.len() < u32::MAX,
        ensures
            synced(old(self)@, final(self)@),
            final(self)@ == sync_result(old(self)@, above),
            ids_distinct(old(self)@.layers) ==> ids_distinct(final(self)@.layers),
    {
        let ghost before = self@;
        let n = self.vertices.len();
        let (labels, count) = self.components();
        let mut owners = self.component_owners(&labels, count);
        let ghost orig = owners@;
        proof {
            assert forall|k: int| 0 <= k < owners@.len() implies layer_exists(before.layers, #[trigger] owners@[k]) by {
                assert(component_owner(before, labels@, k, owners@[k]));
                let u = choose|u: int| 0 <= u < labels@.len() && labels@[u] == k && before.vertex_layers[u] == owners@[k];
                assert(layer_exists(before.layers, before.vertex_layers[u]));
            }
        }
        let repeated = repeats(&owners);
        self.keep_owned_layers(&owners);
        let ghost kept = self@.layers;
        proof {
            lemma_claims_start(before, self@.layers, orig);
            lemma_filter_ids(before.layers, |layer: LayerView| is_listed(orig, layer.id));
        }
        let mut k: usize = 0;
        while k < count
            invariant
                k <= count,
                count <= before.vertices.len(),
                orig.len() == count,
                repeated@.len() == count,
                forall|i: int| 0 <= i < count ==> #[trigger] repeated@[i] == is_listed(orig.take(i), orig[i]),
                self@ == (MeshView { layers: self@.layers, ..before }),
                self@.layers.len() <= before.layers.len() + k,
                before.layers.len() + before.vertices.len() < u32::MAX,
                claims_hold(before, self@.layers, orig, owners@, k as int),
                claims(kept, orig, above, k as nat) == (self@.layers, owners@),
                ids_distinct(before.layers) ==> ids_distinct(self@.layers),
            decreases count - k,
        {
            if repeated[k] {
                let owner = owners[k];
                let id = self.new_layer();
                let position = self.first_position(owner);
                let curve = self.layers[position].curve;
                let holdout = self.layers[position].holdout;
                let at = if above { position } else { position + 1 };
                let ghost prior = self@.layers;
                let ghost prior_owners = owners@;
                let layer = Layer { id, curve, holdout, name: String::new() };
                let ghost fresh = layer@;
                proof {
                    if ids_distinct(before.layers) {
                        lemma_insert_ids(prior, at as int, fresh);
                    }
                }
                self.layers.insert(at, layer);
                owners.set(k, id);
                proof {
                    assert(self@.layers =~= prior.insert(at as int, fresh));
                    assert(owners@ =~= prior_owners.update(k as int, id));
                    lemma_claim_new(before, prior, orig, prior_owners, k as int, position as int, at as int, fresh);
                    assert(self@ =~= MeshView { layers: self@.layers, ..before });
                    lemma_fresh_unique(prior, id, fresh_id(prior));
                    lemma_first_unique(prior, orig[k as int], position as int, first_at(prior, orig[k as int]));
                    assert(fresh == LayerView { id, curve: prior[position as int].curve, holdout: prior[position as int].holdout, name: Seq::empty() });
                    assert(claims(kept, orig, above, (k + 1) as nat) == claim(prior, prior_owners, orig, k as int, above));
                }
            } else {
                proof {
                    lemma_claim_kept(before, self@.layers, orig, owners@, k as int);
                    assert(claims(kept, orig, above, (k + 1) as nat) == claim(self@.layers, owners@, orig, k as int, above));
                }
            }
            k = k + 1;
        }
        self.assign_layers(&labels, &owners);
        proof {
            lemma_synced(before, self@, labels@, count, orig, owners@);
            lemma_sync_result(before, above, labels@, count, orig, kept, owners@, self@);
        }
    }
}

} // verus!

verus! {

impl Mesh {
    /// Puts each vertex on the layer of its component.
    fn assign_layers(&mut self, labels: &Vec<usize>, owners: &Vec<u32>)
        requires
            labels@.len() == old(self).vertex_layers@.len(),
            forall|v: int| 0 <= v < labels@.len() ==> #[trigger] labels@[v] < owners@.len(),
        ensures
            final(self)@ == (MeshView { vertex_layers: final(self)@.vertex_layers, ..old(self)@ }),
            final(self)@.vertex_layers.len() == old(self)@.vertex_layers.len(),
            forall|v: int| 0 <= v < labels@.len() ==> #[trigger] final(self)@.vertex_layers[v] == owners@[labels@[v] as int],
    {
        let mut v: usize = 0;
        while v < labels.len()
            invariant
                v <= labels@.len() == self.vertex_layers@.len(),
                forall|u: int| 0 <= u < labels@.len() ==> #[trigger] labels@[u] < owners@.len(),
                self@ == (MeshView { vertex_layers: self@.vertex_layers, ..old(self)@ }),
                forall|u: int| 0 <= u < v ==> #[trigger] self@.vertex_layers[u] == owners@[labels@[u] as int],
            decreases labels@.len() - v,
        {
            let id = owners[labels[v]];
            let ghost prior = self@.vertex_layers;
            self.vertex_layers.set(v, id);
            proof {
                assert(self@.vertex_layers =~= prior.update(v as int, id));
                assert(self@ =~= MeshView { vertex_layers: self@.vertex_layers, ..old(self)@ });
            }
            v = v + 1;
        }
    }
}

/// Once every component has its own layer and every vertex is on its component's
/// layer, the mesh is what `sync_layers` promises.
proof fn lemma_synced(before: MeshView, after: MeshView, labels: Seq<usize>, count: usize, orig: Seq<u32>, owners: Seq<u32>)
    requires
        before.well_formed(),
        before.vertices.len() <= usize::MAX,
        is_labelling(before, labels, count),
        orig.len() == count,
        forall|c: int| 0 <= c < count ==> component_owner(before, labels, c, #[trigger] orig[c]),
        claims_hold(before, after.layers, orig, owners, count as int),
        after == (MeshView { layers: after.layers, vertex_layers: after.vertex_layers, ..before }),
        after.vertex_layers.len() == before.vertices.len(),
        forall|v: int| 0 <= v < labels.len() ==> #[trigger] after.vertex_layers[v] == owners[labels[v] as int],
    ensures
        synced(before, after),
{
    let n = before.vertices.len();
    assert forall|v: int| 0 <= v < after.vertex_layers.len() implies layer_exists(after.layers, #[trigger] after.vertex_layers[v]) by {
        assert(labels[v] < count);
        assert(layer_exists(after.layers, owners[labels[v] as int]));
    }
    assert(after.well_formed());
    assert forall|v: int, u: int| 0 <= v < n && 0 <= u < n implies (#[trigger] after.vertex_layers[v] == #[trigger] after.vertex_layers[u]
        <==> connected(before.edges, v as usize, u as usize)) by {
        let (a, b) = (labels[v] as int, labels[u] as int);
        if after.vertex_layers[v] == after.vertex_layers[u] {
            if a < b {
                assert(owners[a] != owners[b]);
            } else if b < a {
                assert(owners[b] != owners[a]);
            }
            assert(labels[v] == labels[u]);
        }
        if connected(before.edges, v as usize, u as usize) {
            lemma_connected_labels(before, labels, count, v as usize, u as usize);
        }
    }
    assert forall|j: int| 0 <= j < after.layers.len() implies is_listed(after.vertex_layers, #[trigger] after.layers[j].id) by {
        let i = choose|i: int| 0 <= i < count && #[trigger] owners[i] == after.layers[j].id;
        assert(label_used(labels, i));
        let v = choose|v: int| 0 <= v < labels.len() && labels[v] == i;
        assert(after.vertex_layers[v] == owners[i]);
    }
    assert forall|v: int, j: int| 0 <= v < n && 0 <= j < after.layers.len() && #[trigger] after.layers[j].id == #[trigger] after.vertex_layers[v]
        implies exists|owner: u32| owns(before, v, owner) && has_kind(before.layers, owner, after.layers[j].curve, after.layers[j].holdout) by {
        let c = labels[v] as int;
        let layer = after.layers[j];
        assert(owners[c] == layer.id);
        if is_listed(orig, layer.id) {
            if owners[c] != orig[c] {
                assert(!is_listed(orig, owners[c]));
            }
            assert(has_kind(before.layers, orig[c], layer.curve, layer.holdout));
        } else {
            let i = choose|i: int| 0 <= i < count && #[trigger] owners[i] == layer.id && has_kind(before.layers, orig[i], layer.curve, layer.holdout);
            if i < c {
                assert(owners[i] != owners[c]);
            } else if c < i {
                assert(owners[c] != owners[i]);
            }
            assert(has_kind(before.layers, orig[c], layer.curve, layer.holdout));
        }
        assert(component_owner(before, labels, c, orig[c]));
        assert(owns(before, v, orig[c])) by {
            let u = choose|u: int| 0 <= u < labels.len() && labels[u] == c && before.vertex_layers[u] == orig[c];
            assert(connected(before.edges, v as usize, u as usize));
            assert forall|w: int| 0 <= w < before.vertices.len() && connected(before.edges, v as usize, w as usize)
                implies !preferred(before, #[trigger] before.vertex_layers[w], orig[c]) by {
                lemma_connected_labels(before, labels, count, v as usize, w as usize);
            }
        }
    }
}

} // verus!

verus! {

/// Settling a component that keeps its owner's layer keeps the claims.
proof fn lemma_claim_kept(before: MeshView, layers: Seq<LayerView>, orig: Seq<u32>, owners: Seq<u32>, k: int)
    requires
        0 <= k < orig.len(),
        claims_hold(before, layers, orig, owners, k),
        !is_listed(orig.take(k), orig[k]),
    ensures
        claims_hold(before, layers, orig, owners, k + 1),
{
    assert(owners[k] == orig[k]);
    assert forall|a: int, b: int| 0 <= a < b < k + 1 implies #[trigger] owners[a] != #[trigger] owners[b] by {
        if b == k && owners[a] == owners[b] {
            if owners[a] == orig[a] {
                assert(orig.take(k)[a] == orig[k]);
            } else {
                assert(is_listed(orig, owners[a])) by {
                    assert(orig[k] == owners[a]);
                }
            }
        }
    }
}

/// Settling a component whose owner's layer an earlier one kept: it gets the new layer
/// `fresh`, inserted at `at` next to the first layer of the owner, at `position`.
proof fn lemma_claim_new(before: MeshView, prior: Seq<LayerView>, orig: Seq<u32>, owners: Seq<u32>, k: int, position: int, at: int, fresh: LayerView)
    requires
        0 <= k < orig.len(),
        claims_hold(before, prior, orig, owners, k),
        is_listed(orig.take(k), orig[k]),
        0 <= position < prior.len(),
        prior[position].id == owners[k],
        at == position || at == position + 1,
        !layer_exists(prior, fresh.id),
        fresh.curve == prior[position].curve,
        fresh.holdout == prior[position].holdout,
    ensures
        claims_hold(before, prior.insert(at, fresh), orig, owners.update(k, fresh.id), k + 1),
{
    let count = orig.len();
    let layers = prior.insert(at, fresh);
    let cur = owners.update(k, fresh.id);
    let owner = owners[k];
    let id = fresh.id;
    assert(owner == orig[k]);
    assert(is_listed(orig, owner)) by {
        assert(orig[k] == owner);
    }
    assert(has_kind(before.layers, owner, fresh.curve, fresh.holdout)) by {
        assert(is_listed(orig, prior[position].id));
    }
    assert forall|x: u32| #[trigger] layer_exists(layers, x) <==> (layer_exists(prior, x) || x == id) by {
        lemma_exists_after_insert_at(prior, at, fresh, x);
    }
    assert(!is_listed(orig, id)) by {
        if is_listed(orig, id) {
            let i = choose|i: int| 0 <= i < count && orig[i] == id;
            assert(layer_exists(prior, orig[i]));
        }
    }
    lemma_first_occurrence(orig, owner, k);
    let first = choose|i: int| 0 <= i < k && orig[i] == owner && !is_listed(orig.take(i), owner);
    assert(owners[first] == owner);
    assert forall|i: int| 0 <= i < k + 1 && #[trigger] cur[i] != orig[i] implies !is_listed(orig, cur[i]) by {
        if i < k {
            assert(cur[i] == owners[i]);
        }
    }
    assert forall|i: int| 0 <= i < k + 1 && !is_listed(orig.take(i), orig[i]) implies #[trigger] cur[i] == orig[i] by {
        if i < k {
            assert(cur[i] == owners[i]);
        }
    }
    assert forall|a: int, b: int| 0 <= a < b < k + 1 implies #[trigger] cur[a] != #[trigger] cur[b] by {
        if b == k {
            assert(layer_exists(prior, owners[a]));
        } else {
            assert(owners[a] != owners[b]);
        }
    }
    assert forall|j: int| 0 <= j < layers.len() implies is_listed(cur, #[trigger] layers[j].id) by {
        if j == at {
            assert(cur[k] == layers[j].id);
        } else {
            let pj = if j < at { j } else { j - 1 };
            assert(layers[j] == prior[pj]);
            let i = choose|i: int| 0 <= i < count && owners[i] == prior[pj].id;
            if i == k {
                assert(cur[first] == layers[j].id);
            } else {
                assert(cur[i] == layers[j].id);
            }
        }
    }
    assert forall|j: int| 0 <= j < layers.len() && is_listed(orig, #[trigger] layers[j].id)
        implies has_kind(before.layers, layers[j].id, layers[j].curve, layers[j].holdout) by {
        if j != at {
            let pj = if j < at { j } else { j - 1 };
            assert(layers[j] == prior[pj]);
        }
    }
    assert forall|j: int| 0 <= j < layers.len() && !is_listed(orig, #[trigger] layers[j].id)
        implies exists|i: int| 0 <= i < count && #[trigger] cur[i] == layers[j].id
            && has_kind(before.layers, orig[i], layers[j].curve, layers[j].holdout) by {
        if j == at {
            assert(cur[k] == layers[j].id);
            assert(layers[j] == fresh);
        } else {
            let pj = if j < at { j } else { j - 1 };
            assert(layers[j] == prior[pj]);
            let i = choose|i: int| 0 <= i < count && #[trigger] owners[i] == prior[pj].id
                && has_kind(before.layers, orig[i], prior[pj].curve, prior[pj].holdout);
            assert(i != k);
            assert(cur[i] == layers[j].id);
        }
    }
    assert forall|i: int| 0 <= i < count implies layer_exists(layers, #[trigger] cur[i]) by {
        if i != k {
            assert(layer_exists(prior, owners[i]));
        }
    }
    assert forall|i: int| 0 <= i < count implies layer_exists(layers, #[trigger] orig[i]) by {
        assert(layer_exists(prior, orig[i]));
    }
}

} // verus!

verus! {

/// The claims hold before any component is settled, once only owned layers remain.
proof fn lemma_claims_start(before: MeshView, layers: Seq<LayerView>, orig: Seq<u32>)
    requires
        forall|j: int| 0 <= j < layers.len() ==> is_listed(orig, #[trigger] layers[j].id)
            && has_kind(before.layers, layers[j].id, layers[j].curve, layers[j].holdout),
        forall|k: int| 0 <= k < orig.len() ==> layer_exists(layers, #[trigger] orig[k]),
    ensures
        claims_hold(before, layers, orig, orig, 0),
{
}

} // verus!

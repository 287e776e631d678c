use crate::faces::strictly_increasing;
use crate::graph::layer_exists;
use crate::history::views;
use crate::mesh::{Layer, LayerView, Mesh, MeshView, Point};
use vstd::prelude::*;
use vstd::set_lib::{lemma_int_range, lemma_len_subset, set_int_range};

verus! {

broadcast use vstd::seq_lib::group_seq_properties;

/// How many vertices lie on the layer `id`.
pub open spec fn vertices_on(vertex_layers: Seq<u32>, id: u32) -> nat {
    vertex_layers.filter(crate::sync::on_layer(id)).len()
}

/// The test for the vertices on the layer `id`.
pub open spec fn lies_on(vertex_layers: Seq<u32>, id: u32) -> spec_fn(usize) -> bool {
    |v: usize| vertex_layers[v as int] == id
}

/// How many entries of `selection` name a vertex on the layer `id`.
pub open spec fn selected_on(vertex_layers: Seq<u32>, selection: Seq<usize>, id: u32) -> nat {
    selection.filter(lies_on(vertex_layers, id)).len()
}

/// How many entries of `list` equal `id`.
fn count_on(list: &[u32], id: u32) -> (count: usize)
    ensures
        count == vertices_on(list@, id),
{
    let mut count: usize = 0;
    let mut i: usize = 0;
    while i < list.len()
        invariant
            i <= list@.len(),
            count == vertices_on(list@.take(i as int), id),
            count <= i,
        decreases list@.len() - i,
    {
        proof {
            assert(list@.take(i + 1) =~= list@.take(i as int).push(list@[i as int]));
            list@.take(i as int).lemma_filter_push(list@[i as int], crate::sync::on_layer(id));
        }
        if list[i] == id {
            count = count + 1;
        }
        i = i + 1;
    }
    assert(list@.take(list@.len() as int) =~= list@);
    count
}

/// `id` is the smallest positive id that no layer has.
pub open spec fn is_fresh_id(layers: Seq<LayerView>, id: u32) -> bool {
    &&& id >= 1
    &&& !layer_exists(layers, id)
    &&& forall|k: u32| 1 <= k < id ==> layer_exists(layers, k)
}

/// `i` is the position of the first layer with id `id`.
pub open spec fn first_with_id(layers: Seq<LayerView>, id: u32, i: int) -> bool {
    &&& 0 <= i < layers.len()
    &&& layers[i].id == id
    &&& forall|j: int| 0 <= j < i ==> layers[j].id != id
}

/// Whether some vertex of `vertices` (that exists) lies on the layer `id`.
pub open spec fn selects_layer(vertex_layers: Seq<u32>, vertices: Seq<usize>, id: u32) -> bool {
    exists|i: int| 0 <= i < vertices.len() && vertex_layers[vertices[i] as int] == id
}

/// An empty layer with the given id and kind.
pub open spec fn blank_layer(id: u32, curve: bool) -> LayerView {
    LayerView { id, curve, holdout: false, name: Seq::empty() }
}

/// Among the ids `1..=n + 1`, some id is not used by `n` layers.
proof fn lemma_ids_pigeonhole(layers: Seq<LayerView>)
    requires
        layers.len() < u32::MAX,
    ensures
        exists|k: u32| 1 <= k <= layers.len() + 1 && !layer_exists(layers, k),
{
    if forall|k: u32| 1 <= k <= layers.len() + 1 ==> layer_exists(layers, k) {
        lemma_ids_all_used(layers);
    }
}

proof fn lemma_ids_all_used(layers: Seq<LayerView>)
    requires
        forall|k: u32| 1 <= k <= layers.len() + 1 ==> layer_exists(layers, k),
        layers.len() < u32::MAX,
    ensures
        layers.len() + 1 <= layers.len(),
{
    let n = layers.len();
    let ids = layers.map_values(|l: LayerView| l.id as int);
    let range = set_int_range(1, n as int + 2);
    assert forall|k: int| range.contains(k) implies ids.to_set().contains(k) by {
        assert(layer_exists(layers, k as u32));
        let i = choose|i: int| 0 <= i < layers.len() && layers[i].id == k as u32;
        assert(ids[i] == k);
    }
    ids.lemma_cardinality_of_set();
    lemma_int_range(1, n as int + 2);
    lemma_len_subset(range, ids.to_set());
}

pub proof fn lemma_exists_after_insert(layers: Seq<LayerView>, layer: LayerView, id: u32)
    ensures
        layer_exists(layers.insert(0, layer), id) <==> (layer_exists(layers, id) || layer.id == id),
{
    let grown = layers.insert(0, layer);
    if layer_exists(layers, id) {
        let i = choose|i: int| 0 <= i < layers.len() && layers[i].id == id;
        assert(grown[i + 1] == layers[i]);
    }
    if layer_exists(grown, id) {
        let i = choose|i: int| 0 <= i < grown.len() && grown[i].id == id;
        if i > 0 {
            assert(layers[i - 1] == grown[i]);
        }
    }
    assert(grown[0] == layer);
}

/// Changing only the layers keeps a mesh well formed as long as no id goes away.
pub proof fn lemma_layers_changed(before: MeshView, after: MeshView)
    requires
        before.well_formed(),
        after == (MeshView { layers: after.layers, ..before }),
        forall|id: u32| layer_exists(before.layers, id) ==> layer_exists(after.layers, id),
    ensures
        after.well_formed(),
{
    assert(after.vertices == before.vertices && after.edges == before.edges);
    assert(after.vertex_layers == before.vertex_layers && after.holes == before.holes && after.colors == before.colors);
    assert forall|v: int| 0 <= v < after.vertex_layers.len() implies layer_exists(after.layers, #[trigger] after.vertex_layers[v]) by {
        assert(layer_exists(before.layers, before.vertex_layers[v]));
    }
}

impl Mesh {
    /// The layer of `vertex`.
    pub fn layer(&self, vertex: usize) -> (id: u32)
        requires
            vertex < self.vertex_layers@.len(),
        ensures
            id == self.vertex_layers@[vertex as int],
    {
        self.vertex_layers[vertex]
    }

    /// Whether some layer has the id `id`.
    pub fn has_layer(&self, id: u32) -> (found: bool)
        ensures
            found == layer_exists(self@.layers, id),
    {
        let mut i: usize = 0;
        while i < self.layers.len()
            invariant
                i <= self.layers@.len(),
                forall|j: int| 0 <= j < i ==> self@.layers[j].id != id,
            decreases self.layers@.len() - i,
        {
            assert(self@.layers[i as int].id == self.layers@[i as int].id);
            if self.layers[i].id == id {
                return true;
            }
            i = i + 1;
        }
        false
    }

    /// Whether the layer of `vertex` draws its vertices as a curve.
    pub fn is_curve(&self, vertex: usize) -> (curve: bool)
        requires
            vertex < self.vertex_layers@.len(),
        ensures
            curve == exists|i: int| 0 <= i < self@.layers.len()
                && self@.layers[i].id == self.vertex_layers@[vertex as int] && self@.layers[i].curve,
    {
        let id = self.vertex_layers[vertex];
        let mut i: usize = 0;
        while i < self.layers.len()
            invariant
                i <= self.layers@.len(),
                vertex < self.vertex_layers@.len(),
                id == self.vertex_layers@[vertex as int],
                forall|j: int| 0 <= j < i ==> !(self@.layers[j].id == id && self@.layers[j].curve),
            decreases self.layers@.len() - i,
        {
            assert(self@.layers[i as int].id == self.layers@[i as int].id);
            if self.layers[i].id == id && self.layers[i].curve {
                proof {
                    let k = i as int;
                    assert(0 <= k < self@.layers.len() && self@.layers[k].id == self.vertex_layers@[vertex as int] && self@.layers[k].curve);
                }
                return true;
            }
            i = i + 1;
        }
        false
    }

    /// The smallest positive id that no layer has.
    pub fn new_layer(&self) -> (id: u32)
        requires
            self.layers@.len() < u32::MAX,
        ensures
            is_fresh_id(self@.layers, id),
    {
        let ghost layers = self@.layers;
        let mut id: u32 = 1;
        loop
            invariant
                layers == self@.layers,
                self.layers@.len() < u32::MAX,
                1 <= id <= self.layers@.len() + 1,
                forall|k: u32| 1 <= k < id ==> layer_exists(layers, k),
            decreases self.layers@.len() + 1 - id,
        {
            if !self.has_layer(id) {
                return id;
            }
            if id as usize == self.layers.len() + 1 {
                proof {
                    lemma_ids_pigeonhole(layers);
                    let k = choose|k: u32| 1 <= k <= layers.len() + 1 && !layer_exists(layers, k);
                    if k < id {
                        assert(layer_exists(layers, k));
                    }
                }
            }
            id = id + 1;
        }
    }

    /// Moves the layer at `from` so that it stands before the layer that was at `target`
    /// (at the end when `target` is the number of layers).
    pub fn move_layer(&mut self, from: usize, target: usize)
        requires
            from < old(self).layers@.len(),
            target <= old(self).layers@.len(),
        ensures
            ({
                let to = if target > from { target - 1 } else { target as int };
                final(self)@.layers == old(self)@.layers.remove(from as int).insert(to, old(self)@.layers[from as int])
            }),
            final(self)@.vertices == old(self)@.vertices,
            final(self)@.edges == old(self)@.edges,
            final(self)@.vertex_layers == old(self)@.vertex_layers,
            final(self)@.holes == old(self)@.holes,
            final(self)@.colors == old(self)@.colors,
            final(self)@.images == old(self)@.images,
            old(self)@.well_formed() ==> final(self)@.well_formed(),
    {
        let ghost before = self.layers@;
        let layer = self.layers.remove(from);
        let to = if target > from { target - 1 } else { target };
        let ghost middle = self.layers@;
        self.layers.insert(to, layer);
        proof {
            assert(views(self.layers@) =~= views(before).remove(from as int).insert(to as int, views(before)[from as int]));
            let old_view = old(self)@;
            let new_view = self@;
            assert(new_view.vertex_layers == old_view.vertex_layers);
            assert forall|id: u32| layer_exists(old_view.layers, id) implies layer_exists(new_view.layers, id) by {
                let i = choose|i: int| 0 <= i < old_view.layers.len() && old_view.layers[i].id == id;
                let j = if i == from { to as int } else {
                    let k = if i < from { i } else { i - 1 };
                    if k < to { k } else { k + 1 }
                };
                assert(new_view.layers[j] == old_view.layers[i]);
            }
        }
    }

    /// Gives the first layer with id `id` the name `name`; nothing changes when no layer
    /// has that id.
    pub fn rename_layer(&mut self, id: u32, name: String)
        ensures
            final(self)@.layers.len() == old(self)@.layers.len(),
            !layer_exists(old(self)@.layers, id) ==> final(self)@.layers == old(self)@.layers,
            forall|i: int| first_with_id(old(self)@.layers, id, i) ==> final(self)@.layers
                == old(self)@.layers.update(i, LayerView { name: name@, ..old(self)@.layers[i] }),
            final(self)@.vertices == old(self)@.vertices,
            final(self)@.edges == old(self)@.edges,
            final(self)@.vertex_layers == old(self)@.vertex_layers,
            final(self)@.holes == old(self)@.holes,
            final(self)@.colors == old(self)@.colors,
            final(self)@.images == old(self)@.images,
            old(self)@.well_formed() ==> final(self)@.well_formed(),
    {
        let ghost layers = self@.layers;
        let mut i: usize = 0;
        while i < self.layers.len()
            invariant
                i <= self.layers@.len(),
                layers == self@.layers,
                self@ == old(self)@,
                forall|j: int| 0 <= j < i ==> layers[j].id != id,
            decreases self.layers@.len() - i,
        {
            assert(layers[i as int].id == self.layers@[i as int].id);
            if self.layers[i].id == id {
                let mut layer = Layer { id: 0, curve: false, holdout: false, name: String::new() };
                self.layers.set_and_swap(i, &mut layer);
                layer.name = name;
                let ghost renamed = layer@;
                self.layers.set_and_swap(i, &mut layer);
                proof {
                    assert(views(self.layers@) =~= layers.update(i as int, renamed));
                    assert(renamed == LayerView { name: name@, ..layers[i as int] });
                    assert forall|k: int| first_with_id(layers, id, k) implies k == i by {
                        if k < i {
                            assert(layers[k].id != id);
                        }
                        if k > i {
                            assert(layers[i as int].id != id);
                        }
                    }
                    let new_view = self@;
                    assert(new_view.layers.len() == layers.len());
                    assert forall|x: u32| layer_exists(layers, x) implies layer_exists(new_view.layers, x) by {
                        let k = choose|k: int| 0 <= k < layers.len() && layers[k].id == x;
                        assert(new_view.layers[k].id == layers[k].id);
                    }
                    assert(layer_exists(layers, id)) by {
                        assert(layers[i as int].id == id);
                    }
                    if old(self)@.well_formed() {
                        assert(new_view =~= MeshView { layers: new_view.layers, ..old(self)@ });
                        lemma_layers_changed(old(self)@, new_view);
                    }
                }
                return;
            }
            i = i + 1;
        }
        proof {
            assert forall|k: int| first_with_id(layers, id, k) implies false by {
                assert(layers[k].id != id);
            }
            if layer_exists(layers, id) {
                let k = choose|k: int| 0 <= k < layers.len() && layers[k].id == id;
                assert(layers[k].id != id);
            }
        }
    }

    /// The vertices on the layer `id`, in increasing order.
    pub fn layer_vertices(&self, id: u32) -> (found: Vec<usize>)
        ensures
            strictly_increasing(found@),
            forall|v: usize| found@.contains(v) <==> v < self.vertex_layers@.len() && self.vertex_layers@[v as int] == id,
    {
        let mut found: Vec<usize> = Vec::new();
        let mut v: usize = 0;
        while v < self.vertex_layers.len()
            invariant
                v <= self.vertex_layers@.len(),
                strictly_increasing(found@),
                forall|j: int| 0 <= j < found@.len() ==> #[trigger] found@[j] < v,
                forall|u: usize| found@.contains(u) <==> u < v && self.vertex_layers@[u as int] == id,
            decreases self.vertex_layers@.len() - v,
        {
            if self.vertex_layers[v] == id {
                found.push(v);
            }
            v = v + 1;
        }
        found
    }

    /// One row per layer, in the order of the layer list: its id, how many vertices of
    /// `selection` lie on it, and how many vertices it holds.
    pub fn layer_rows(&self, selection: &[usize]) -> (rows: Vec<(u32, usize, usize)>)
        requires
            forall|i: int| 0 <= i < selection@.len() ==> #[trigger] selection@[i] < self.vertex_layers@.len(),
        ensures
            rows@.len() == self@.layers.len(),
            forall|j: int| 0 <= j < rows@.len() ==> {
                let id = self@.layers[j].id;
                &&& (#[trigger] rows@[j]).0 == id
                &&& rows@[j].1 == selected_on(self@.vertex_layers, selection@, id)
                &&& rows@[j].2 == vertices_on(self@.vertex_layers, id)
            },
    {
        let mut rows: Vec<(u32, usize, usize)> = Vec::new();
        let mut j: usize = 0;
        while j < self.layers.len()
            invariant
                j <= self.layers@.len(),
                forall|i: int| 0 <= i < selection@.len() ==> #[trigger] selection@[i] < self.vertex_layers@.len(),
                rows@.len() == j,
                forall|k: int| 0 <= k < j ==> {
                    let id = self@.layers[k].id;
                    &&& (#[trigger] rows@[k]).0 == id
                    &&& rows@[k].1 == selected_on(self@.vertex_layers, selection@, id)
                    &&& rows@[k].2 == vertices_on(self@.vertex_layers, id)
                },
            decreases self.layers@.len() - j,
        {
            let id = self.layers[j].id;
            assert(id == self@.layers[j as int].id);
            let total = count_on(self.vertex_layers.as_slice(), id);
            let mut selected: usize = 0;
            let mut i: usize = 0;
            while i < selection.len()
                invariant
                    i <= selection@.len(),
                    forall|q: int| 0 <= q < selection@.len() ==> #[trigger] selection@[q] < self.vertex_layers@.len(),
                    selected == selected_on(self@.vertex_layers, selection@.take(i as int), id),
                    selected <= i,
                decreases selection@.len() - i,
            {
                proof {
                    assert(selection@.take(i + 1) =~= selection@.take(i as int).push(selection@[i as int]));
                    selection@.take(i as int).lemma_filter_push(selection@[i as int], lies_on(self@.vertex_layers, id));
                }
                if self.vertex_layers[selection[i]] == id {
                    selected = selected + 1;
                }
                i = i + 1;
            }
            assert(selection@.take(selection@.len() as int) =~= selection@);
            assert(self.vertex_layers@ == self@.vertex_layers);
            let ghost prior = rows@;
            rows.push((id, selected, total));
            proof {
                assert(rows@ == prior.push((id, selected, total)));
                assert forall|k: int| 0 <= k < j + 1 implies {
                    let id = self@.layers[k].id;
                    &&& (#[trigger] rows@[k]).0 == id
                    &&& rows@[k].1 == selected_on(self@.vertex_layers, selection@, id)
                    &&& rows@[k].2 == vertices_on(self@.vertex_layers, id)
                } by {
                    if k < j {
                        assert(rows@[k] == prior[k]);
                    }
                }
            }
            j = j + 1;
        }
        rows
    }

    /// Gives the layers of the given vertices the holdout flag, or takes it away when all
    /// of them have it already.
    pub fn toggle_holdout(&mut self, vertices: &[usize])
        requires
            forall|i: int| 0 <= i < vertices@.len() ==> #[trigger] vertices@[i] < old(self).vertex_layers@.len(),
        ensures
            ({
                let old_layers = old(self)@.layers;
                let chosen = |id: u32| selects_layer(old(self)@.vertex_layers, vertices@, id);
                let holdout = !(forall|j: int| 0 <= j < old_layers.len() && chosen(old_layers[j].id) ==> old_layers[j].holdout);
                &&& final(self)@.layers.len() == old_layers.len()
                &&& forall|j: int| 0 <= j < old_layers.len() ==> #[trigger] final(self)@.layers[j]
                    == if chosen(old_layers[j].id) { LayerView { holdout, ..old_layers[j] } } else { old_layers[j] }
            }),
            final(self)@.vertices == old(self)@.vertices,
            final(self)@.edges == old(self)@.edges,
            final(self)@.vertex_layers == old(self)@.vertex_layers,
            final(self)@.holes == old(self)@.holes,
            final(self)@.colors == old(self)@.colors,
            final(self)@.images == old(self)@.images,
            old(self)@.well_formed() ==> final(self)@.well_formed(),
    {
        let ghost old_layers = self@.layers;
        let ghost chosen = |id: u32| selects_layer(self@.vertex_layers, vertices@, id);
        let mut all = true;
        let mut i: usize = 0;
        while i < self.layers.len()
            invariant
                i <= self.layers@.len(),
                old_layers == self@.layers,
                chosen == |id: u32| selects_layer(self@.vertex_layers, vertices@, id),
                forall|k: int| 0 <= k < vertices@.len() ==> #[trigger] vertices@[k] < self.vertex_layers@.len(),
                all == forall|j: int| 0 <= j < i && chosen(old_layers[j].id) ==> old_layers[j].holdout,
            decreases self.layers@.len() - i,
        {
            assert(old_layers[i as int] == self.layers@[i as int]@);
            if !self.layers[i].holdout && self.selects(vertices, self.layers[i].id) {
                all = false;
            }
            i = i + 1;
        }
        let holdout = !all;
        let mut i: usize = 0;
        while i < self.layers.len()
            invariant
                i <= self.layers@.len(),
                self.layers@.len() == old_layers.len(),
                chosen == |id: u32| selects_layer(self@.vertex_layers, vertices@, id),
                forall|k: int| 0 <= k < vertices@.len() ==> #[trigger] vertices@[k] < self.vertex_layers@.len(),
                forall|j: int| 0 <= j < i ==> #[trigger] self@.layers[j]
                    == if chosen(old_layers[j].id) { LayerView { holdout, ..old_layers[j] } } else { old_layers[j] },
                forall|j: int| i <= j < old_layers.len() ==> #[trigger] self@.layers[j] == old_layers[j],
                self@.vertex_layers == old(self)@.vertex_layers,
                self@.vertices == old(self)@.vertices,
                self@.edges == old(self)@.edges,
                self@.holes == old(self)@.holes,
                self@.colors == old(self)@.colors,
                self@.images == old(self)@.images,
            decreases self.layers@.len() - i,
        {
            let id = self.layers[i].id;
            let ghost prior = self@.layers;
            assert(prior[i as int] == old_layers[i as int]);
            if self.selects(vertices, id) {
                let mut layer = Layer { id: 0, curve: false, holdout: false, name: String::new() };
                self.layers.set_and_swap(i, &mut layer);
                layer.holdout = holdout;
                let ghost changed = layer@;
                self.layers.set_and_swap(i, &mut layer);
                proof {
                    assert(self@.layers =~= prior.update(i as int, changed));
                    assert(changed == LayerView { holdout, ..old_layers[i as int] });
                }
            }
            i = i + 1;
        }
        proof {
            let new_view = self@;
            assert forall|x: u32| layer_exists(old_layers, x) implies layer_exists(new_view.layers, x) by {
                let k = choose|k: int| 0 <= k < old_layers.len() && old_layers[k].id == x;
                assert(new_view.layers[k].id == old_layers[k].id);
            }
            if old(self)@.well_formed() {
                assert(new_view =~= MeshView { layers: new_view.layers, ..old(self)@ });
                lemma_layers_changed(old(self)@, new_view);
            }
        }
    }

    /// Whether some vertex of `vertices` lies on the layer `id`.
    fn selects(&self, vertices: &[usize], id: u32) -> (found: bool)
        requires
            forall|k: int| 0 <= k < vertices@.len() ==> #[trigger] vertices@[k] < self.vertex_layers@.len(),
        ensures
            found == selects_layer(self@.vertex_layers, vertices@, id),
    {
        let mut i: usize = 0;
        while i < vertices.len()
            invariant
                i <= vertices@.len(),
                forall|k: int| 0 <= k < vertices@.len() ==> #[trigger] vertices@[k] < self.vertex_layers@.len(),
                forall|k: int| 0 <= k < i ==> self@.vertex_layers[vertices@[k] as int] != id,
            decreases vertices@.len() - i,
        {
            if self.vertex_layers[vertices[i]] == id {
                return true;
            }
            i = i + 1;
        }
        false
    }
}

} // verus!

verus! {

/// How a layer is called in the layer list: by its own name when it has one, else as a
/// curve or a shape with its id. The list adds that a holdout layer is one.
#[derive(Clone, Copy, PartialEq, Eq, Structural, Debug)]
pub enum Title {
    Named,
    Curve(u32),
    Shape(u32),
}

/// The title of a layer with view `layer`.
pub open spec fn spec_title(layer: LayerView) -> Title {
    if layer.name.len() > 0 {
        Title::Named
    } else if layer.curve {
        Title::Curve(layer.id)
    } else {
        Title::Shape(layer.id)
    }
}

impl Layer {
    /// How the layer is called in the layer list (see `Title`).
    pub fn title(&self) -> (title: Title)
        ensures
            title == spec_title(self@),
    {
        if !self.name.as_str().is_empty() {
            Title::Named
        } else if self.curve {
            Title::Curve(self.id)
        } else {
            Title::Shape(self.id)
        }
    }
}

} // verus!

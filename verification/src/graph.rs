use crate::history::views;
use crate::mesh::{LayerView, Mesh, MeshView};
use vstd::prelude::*;
use vstd::set_lib::{lemma_int_range, lemma_len_subset, set_int_range};

verus! {

broadcast use vstd::seq_lib::group_seq_properties;

/// Whether some layer in `layers` has the id `id`.
pub open spec fn layer_exists(layers: Seq<LayerView>, id: u32) -> bool {
    exists|i: int| 0 <= i < layers.len() && layers[i].id == id
}

/// Whether every index in every key is below `n`.
pub open spec fn keys_below(keys: Seq<Seq<usize>>, n: nat) -> bool {
    forall|i: int, j: int| 0 <= i < keys.len() && 0 <= j < keys[i].len() ==> keys[i][j] < n
}

/// The face keys of a colour list.
pub open spec fn color_keys(colors: Seq<(Seq<usize>, crate::mesh::Rgba)>) -> Seq<Seq<usize>> {
    colors.map_values(|entry: (Seq<usize>, crate::mesh::Rgba)| entry.0)
}

impl MeshView {
    /// Every vertex has a layer that exists, and every edge and face key names
    /// existing vertices.
    pub open spec fn well_formed(self) -> bool {
        &&& self.vertex_layers.len() == self.vertices.len()
        &&& forall|i: int| 0 <= i < self.edges.len() ==> #[trigger] self.edges[i].len() == 2
            && self.edges[i][0] < self.vertices.len() && self.edges[i][1] < self.vertices.len()
        &&& forall|v: int| 0 <= v < self.vertex_layers.len() ==> layer_exists(self.layers, #[trigger] self.vertex_layers[v])
        &&& keys_below(self.holes, self.vertices.len())
        &&& keys_below(color_keys(self.colors), self.vertices.len())
    }

    /// Every edge joins two existing vertices: all that reading the graph of the mesh
    /// asks for.
    pub open spec fn edges_fit(self) -> bool {
        forall|i: int| 0 <= i < self.edges.len() ==> #[trigger] self.edges[i].len() == 2
            && self.edges[i][0] < self.vertices.len() && self.edges[i][1] < self.vertices.len()
    }
}

/// The neighbours of vertex `v`, one per edge end that meets it, in the order of the
/// edges: for an edge `[a, b]`, `a` gets `b` and then `b` gets `a`.
pub open spec fn neighbour_list(edges: Seq<Seq<usize>>, v: usize) -> Seq<usize>
    decreases edges.len(),
{
    if edges.len() == 0 {
        Seq::empty()
    } else {
        let e = edges.last();
        let prior = neighbour_list(edges.drop_last(), v);
        let with_first = if e[0] == v { prior.push(e[1]) } else { prior };
        if e[1] == v { with_first.push(e[0]) } else { with_first }
    }
}

/// Whether some edge joins `a` and `b`, in either direction.
pub open spec fn adjacent(edges: Seq<Seq<usize>>, a: usize, b: usize) -> bool {
    exists|i: int| 0 <= i < edges.len() && ((edges[i][0] == a && edges[i][1] == b) || (edges[i][0] == b && edges[i][1] == a))
}

/// Whether `path` walks along edges, one vertex to the next.
pub open spec fn is_path(edges: Seq<Seq<usize>>, path: Seq<usize>) -> bool {
    &&& path.len() > 0
    &&& forall|i: int| 0 <= i < path.len() - 1 ==> adjacent(edges, #[trigger] path[i], path[i + 1])
}

/// Whether a walk along edges leads from `a` to `b`.
pub open spec fn connected(edges: Seq<Seq<usize>>, a: usize, b: usize) -> bool {
    exists|path: Seq<usize>| #[trigger] is_path(edges, path) && path[0] == a && path.last() == b
}

/// Whether a walk along edges leads from one of `vertices` to `v`.
pub open spec fn reaches(edges: Seq<Seq<usize>>, vertices: Seq<usize>, v: usize) -> bool {
    exists|i: int| 0 <= i < vertices.len() && connected(edges, #[trigger] vertices[i], v)
}

/// Linking twice links nothing more: the vertices reached from the vertices that
/// `vertices` reach, among the first `n`, are those that `vertices` reach.
pub proof fn lemma_linked_closed(edges: Seq<Seq<usize>>, vertices: Seq<usize>, found: Seq<usize>, n: nat)
    requires
        forall|v: usize| found.contains(v) <==> v < n && reaches(edges, vertices, v),
    ensures
        forall|v: usize| v < n ==> (reaches(edges, found, v) <==> reaches(edges, vertices, v)),
{
    assert forall|v: usize| v < n implies (reaches(edges, found, v) <==> reaches(edges, vertices, v)) by {
        if reaches(edges, found, v) {
            let i = choose|i: int| 0 <= i < found.len() && connected(edges, #[trigger] found[i], v);
            let u = found[i];
            assert(found.contains(u));
            let j = choose|j: int| 0 <= j < vertices.len() && connected(edges, #[trigger] vertices[j], u);
            lemma_connected_transitive(edges, vertices[j], u, v);
            assert(connected(edges, vertices[j], v));
        }
        if reaches(edges, vertices, v) {
            assert(found.contains(v));
            let i = choose|i: int| 0 <= i < found.len() && found[i] == v;
            lemma_connected_self(edges, v);
            assert(connected(edges, found[i], v));
        }
    }
}

pub proof fn lemma_neighbour_list(edges: Seq<Seq<usize>>, v: usize, u: usize)
    requires
        forall|i: int| 0 <= i < edges.len() ==> #[trigger] edges[i].len() == 2,
    ensures
        neighbour_list(edges, v).contains(u) <==> adjacent(edges, v, u),
    decreases edges.len(),
{
    if edges.len() > 0 {
        let rest = edges.drop_last();
        lemma_neighbour_list(rest, v, u);
        let e = edges.last();
        if adjacent(edges, v, u) {
            let i = choose|i: int| 0 <= i < edges.len() && ((edges[i][0] == v && edges[i][1] == u) || (edges[i][0] == u && edges[i][1] == v));
            if i < edges.len() - 1 {
                assert(rest[i] == edges[i]);
                assert(adjacent(rest, v, u));
            }
        }
        if adjacent(rest, v, u) {
            let i = choose|i: int| 0 <= i < rest.len() && ((rest[i][0] == v && rest[i][1] == u) || (rest[i][0] == u && rest[i][1] == v));
            assert(edges[i] == rest[i]);
        }
        if neighbour_list(edges, v).contains(u) && !neighbour_list(rest, v).contains(u) {
            assert(edges[edges.len() - 1] == e);
        }
    }
}

pub proof fn lemma_connected_self(edges: Seq<Seq<usize>>, a: usize)
    ensures
        connected(edges, a, a),
{
    let path = seq![a];
    assert(path[0] == a && path.last() == a);
    assert(is_path(edges, path));
}

pub proof fn lemma_connected_step(edges: Seq<Seq<usize>>, a: usize, b: usize, c: usize)
    requires
        connected(edges, a, b),
        adjacent(edges, b, c),
    ensures
        connected(edges, a, c),
{
    let path = choose|path: Seq<usize>| is_path(edges, path) && path[0] == a && path.last() == b;
    let longer = path.push(c);
    assert forall|i: int| 0 <= i < longer.len() - 1 implies adjacent(edges, #[trigger] longer[i], longer[i + 1]) by {
        if i < path.len() - 1 {
            assert(longer[i] == path[i] && longer[i + 1] == path[i + 1]);
        }
    }
    assert(is_path(edges, longer));
    assert(longer[0] == a && longer.last() == c);
}

pub proof fn lemma_connected_symmetric(edges: Seq<Seq<usize>>, a: usize, b: usize)
    requires
        connected(edges, a, b),
    ensures
        connected(edges, b, a),
{
    let path = choose|path: Seq<usize>| is_path(edges, path) && path[0] == a && path.last() == b;
    let back = path.reverse();
    assert forall|i: int| 0 <= i < back.len() - 1 implies adjacent(edges, #[trigger] back[i], back[i + 1]) by {
        let j = path.len() - 2 - i;
        assert(adjacent(edges, path[j], path[j + 1]));
        assert(back[i] == path[j + 1] && back[i + 1] == path[j]);
    }
    assert(is_path(edges, back));
    assert(back[0] == b && back.last() == a);
}

pub proof fn lemma_connected_transitive(edges: Seq<Seq<usize>>, a: usize, b: usize, c: usize)
    requires
        connected(edges, a, b),
        connected(edges, b, c),
    ensures
        connected(edges, a, c),
{
    let p = choose|path: Seq<usize>| is_path(edges, path) && path[0] == a && path.last() == b;
    let q = choose|path: Seq<usize>| is_path(edges, path) && path[0] == b && path.last() == c;
    let r = p + q.drop_first();
    assert forall|i: int| 0 <= i < r.len() - 1 implies adjacent(edges, #[trigger] r[i], r[i + 1]) by {
        if i < p.len() - 1 {
            assert(r[i] == p[i] && r[i + 1] == p[i + 1]);
        } else if i == p.len() - 1 {
            assert(r[i] == b && q[0] == b && r[i + 1] == q[1]);
            assert(adjacent(edges, q[0], q[1]));
        } else {
            let k = i - p.len() + 1;
            assert(r[i] == q[k] && r[i + 1] == q[k + 1]);
        }
    }
    if q.len() == 1 {
        assert(r =~= p);
    }
    assert(is_path(edges, r));
    assert(r[0] == a && r.last() == c);
}

/// The set of labelled vertices: those whose label is not `usize::MAX`.
pub open spec fn labelled(labels: Seq<usize>) -> Set<int> {
    Set::new(|v: int| 0 <= v < labels.len() && labels[v] != usize::MAX)
}

proof fn lemma_labelled_bound(labels: Seq<usize>)
    ensures
        labelled(labels).finite(),
        labelled(labels).len() <= labels.len(),
{
    lemma_int_range(0, labels.len() as int);
    lemma_len_subset(labelled(labels), set_int_range(0, labels.len() as int));
}

/// Whether some vertex carries label `k`.
pub open spec fn label_used(labels: Seq<usize>, k: int) -> bool {
    exists|v: int| 0 <= v < labels.len() && labels[v] == k
}

/// The labels are numbered in the order they first occur: a label above 0 occurs only
/// after the label before it has.
pub open spec fn numbered_in_order(labels: Seq<usize>) -> bool {
    forall|v: int| 0 <= v < labels.len() && #[trigger] labels[v] > 0 ==> exists|u: int| 0 <= u < v && labels[u] == labels[v] - 1
}

/// Components of the mesh: a label for each vertex, equal for two vertices exactly
/// when a walk along edges joins them, and every label below `count` in use.
pub open spec fn is_labelling(mesh: MeshView, labels: Seq<usize>, count: usize) -> bool {
    &&& labels.len() == mesh.vertices.len()
    &&& count <= labels.len()
    &&& forall|v: int| 0 <= v < labels.len() ==> #[trigger] labels[v] < count
    &&& forall|i: int| 0 <= i < mesh.edges.len() ==> labels[#[trigger] mesh.edges[i][0] as int] == labels[mesh.edges[i][1] as int]
    &&& forall|v: int, u: int| 0 <= v < labels.len() && 0 <= u < labels.len() && #[trigger] labels[v] == #[trigger] labels[u]
        ==> connected(mesh.edges, v as usize, u as usize)
    &&& forall|k: int| 0 <= k < count ==> #[trigger] label_used(labels, k)
}

impl Mesh {
    /// Whether every edge joins two existing vertices.
    pub fn edges_fit(&self) -> (fit: bool)
        ensures
            fit == self@.edges_fit(),
    {
        let ghost m = self@;
        let n = self.vertices.len();
        assert(m.vertices.len() == n);
        let mut i: usize = 0;
        while i < self.edges.len()
            invariant
                i <= self.edges@.len(),
                n == self.vertices@.len(),
                m.vertices.len() == n,
                m.edges.len() == self.edges@.len(),
                m == self@,
                forall|j: int| 0 <= j < i ==> #[trigger] m.edges[j].len() == 2 && m.edges[j][0] < n && m.edges[j][1] < n,
            decreases self.edges@.len() - i,
        {
            let edge = self.edges[i];
            assert(m.edges[i as int] == edge@);
            if edge[0] >= n || edge[1] >= n {
                assert(!(m.edges[i as int][0] < n && m.edges[i as int][1] < n));
                return false;
            }
            i = i + 1;
        }
        assert forall|j: int| 0 <= j < m.edges.len() implies #[trigger] m.edges[j].len() == 2 && m.edges[j][0] < m.vertices.len()
            && m.edges[j][1] < m.vertices.len() by {
            assert(j < i);
        }
        assert(m.edges_fit());
        assert(self@ == m);
        true
    }

    /// Whether an edge joins `a` and `b`, in either direction.
    pub fn has_edge(&self, a: usize, b: usize) -> (found: bool)
        ensures
            found == adjacent(self@.edges, a, b),
    {
        let ghost edges = self@.edges;
        let mut i: usize = 0;
        while i < self.edges.len()
            invariant
                i <= self.edges@.len(),
                edges == self@.edges,
                forall|j: int| 0 <= j < i ==> !((edges[j][0] == a && edges[j][1] == b) || (edges[j][0] == b && edges[j][1] == a)),
            decreases self.edges@.len() - i,
        {
            let edge = self.edges[i];
            assert(edges[i as int] == edge@);
            if (edge[0] == a && edge[1] == b) || (edge[0] == b && edge[1] == a) {
                return true;
            }
            i = i + 1;
        }
        false
    }

    /// For each vertex, its neighbours along edges.
    pub fn neighbours(&self) -> (lists: Vec<Vec<usize>>)
        requires
            self@.edges_fit(),
        ensures
            lists@.len() == self.vertices@.len(),
            forall|v: int| 0 <= v < lists@.len() ==> #[trigger] lists@[v]@ == neighbour_list(self@.edges, v as usize),
    {
        let n = self.vertices.len();
        let ghost edges = self@.edges;
        let mut lists: Vec<Vec<usize>> = Vec::new();
        let mut v: usize = 0;
        while v < n
            invariant
                v <= n == self.vertices@.len(),
                lists@.len() == v,
                forall|u: int| 0 <= u < v ==> #[trigger] lists@[u]@ == Seq::<usize>::empty(),
            decreases n - v,
        {
            lists.push(Vec::new());
            v = v + 1;
        }
        let mut i: usize = 0;
        while i < self.edges.len()
            invariant
                i <= self.edges@.len(),
                n == self.vertices@.len(),
                edges == self@.edges,
                self@.edges_fit(),
                lists@.len() == n,
                forall|u: int| 0 <= u < n ==> #[trigger] lists@[u]@ == neighbour_list(edges.take(i as int), u as usize),
            decreases self.edges@.len() - i,
        {
            let edge = self.edges[i];
            let (a, b) = (edge[0], edge[1]);
            assert(edges[i as int] == edge@);
            assert(edges[i as int].len() == 2);
            let ghost before = lists@;
            let mut list: Vec<usize> = Vec::new();
            lists.set_and_swap(a, &mut list);
            list.push(b);
            lists.set_and_swap(a, &mut list);
            let ghost middle = lists@;
            let mut list: Vec<usize> = Vec::new();
            lists.set_and_swap(b, &mut list);
            list.push(a);
            lists.set_and_swap(b, &mut list);
            proof {
                let next = edges.take(i + 1);
                assert(next.drop_last() =~= edges.take(i as int));
                assert(next.last() == edge@);
                assert forall|u: int| 0 <= u < n implies #[trigger] lists@[u]@ == neighbour_list(next, u as usize) by {
                    assert(before[u]@ == neighbour_list(edges.take(i as int), u as usize));
                }
            }
            i = i + 1;
        }
        assert(edges.take(self.edges@.len() as int) =~= edges);
        lists
    }

    /// Splits the vertices into components: two vertices share a label exactly when a
    /// walk along edges joins them. Returns the labels and their number.
    pub fn components(&self) -> (result: (Vec<usize>, usize))
        requires
            self@.edges_fit(),
        ensures
            is_labelling(self@, result.0@, result.1),
            numbered_in_order(result.0@),
    {
        let n = self.vertices.len();
        let ghost edges = self@.edges;
        let neighbours = self.neighbours();
        let mut labels: Vec<usize> = Vec::new();
        let mut v: usize = 0;
        while v < n
            invariant
                v <= n,
                labels@.len() == v,
                forall|u: int| 0 <= u < v ==> #[trigger] labels@[u] == usize::MAX,
            decreases n - v,
        {
            labels.push(usize::MAX);
            v = v + 1;
        }
        proof {
            assert forall|v: usize, u: usize| #[trigger] neighbour_list(edges, v).contains(u) <==> adjacent(edges, v, u) by {
                lemma_neighbour_list(edges, v, u);
            }
        }
        let mut count: usize = 0;
        let ghost mut roots: Seq<usize> = Seq::empty();
        let mut start: usize = 0;
        while start < n
            invariant
                start <= n == self.vertices@.len(),
                edges == self@.edges,
                self@.edges_fit(),
                neighbours@.len() == n,
                forall|v: int| 0 <= v < n ==> #[trigger] neighbours@[v]@ == neighbour_list(edges, v as usize),
                forall|v: usize, u: usize| #[trigger] neighbour_list(edges, v).contains(u) <==> adjacent(edges, v, u),
                labels@.len() == n,
                roots.len() == count,
                count <= start,
                forall|v: int| 0 <= v < start ==> #[trigger] labels@[v] != usize::MAX,
                forall|v: int| 0 <= v < n && labels@[v] != usize::MAX ==> #[trigger] labels@[v] < count,
                forall|v: int| 0 <= v < n && #[trigger] labels@[v] != usize::MAX ==> connected(edges, roots[labels@[v] as int], v as usize),
                forall|v: int, u: usize| 0 <= v < n && #[trigger] labels@[v] != usize::MAX && u < n && #[trigger] adjacent(edges, v as usize, u)
                    ==> labels@[u as int] == labels@[v],
                forall|k: int| 0 <= k < count ==> (#[trigger] roots[k]) < n && labels@[roots[k] as int] == k,
                forall|v: int| 0 <= v < n && #[trigger] labels@[v] != usize::MAX ==> roots[labels@[v] as int] <= v,
                forall|a: int, b: int| 0 <= a < b < count ==> #[trigger] roots[a] < #[trigger] roots[b],
                forall|k: int| 0 <= k < count ==> #[trigger] roots[k] < start,
            decreases n - start,
        {
            if labels[start] != usize::MAX {
                start = start + 1;
                continue;
            }
            let ghost unset = labels@;
            labels.set(start, count);
            proof {
                lemma_connected_self(edges, start);
                roots = roots.push(start);
                assert forall|v: int, u: usize| 0 <= v < n && #[trigger] labels@[v] != usize::MAX && !seq![start].contains(v as usize)
                    && u < n && #[trigger] adjacent(edges, v as usize, u) implies labels@[u as int] == labels@[v] by {
                    assert(seq![start][0] == start);
                    assert(v != start);
                    assert(unset[v] != usize::MAX);
                    assert(unset[u as int] == unset[v]);
                }
                assert forall|v: int| 0 <= v < n && #[trigger] labels@[v] != usize::MAX implies connected(edges, roots[labels@[v] as int], v as usize) by {
                    if v != start {
                        assert(unset[v] != usize::MAX);
                    }
                }
                assert forall|v: int| 0 <= v < n && #[trigger] labels@[v] != usize::MAX implies roots[labels@[v] as int] <= v by {
                    if v != start {
                        assert(unset[v] != usize::MAX);
                    }
                }
            }
            let mut stack: Vec<usize> = Vec::new();
            stack.push(start);
            proof {
                lemma_labelled_bound(labels@);
            }
            loop
                invariant
                    start < n == self.vertices@.len(),
                    count < n,
                    edges == self@.edges,
                    self@.edges_fit(),
                    neighbours@.len() == n,
                    forall|v: int| 0 <= v < n ==> #[trigger] neighbours@[v]@ == neighbour_list(edges, v as usize),
                    forall|v: usize, u: usize| #[trigger] neighbour_list(edges, v).contains(u) <==> adjacent(edges, v, u),
                    labels@.len() == n,
                    roots.len() == count + 1,
                    roots[count as int] == start,
                    labels@[start as int] == count,
                    forall|v: int| 0 <= v < start ==> #[trigger] labels@[v] != usize::MAX,
                    forall|v: int| 0 <= v < n && labels@[v] != usize::MAX ==> #[trigger] labels@[v] <= count,
                    forall|v: int| 0 <= v < n && #[trigger] labels@[v] != usize::MAX ==> connected(edges, roots[labels@[v] as int], v as usize),
                    forall|k: int| 0 <= k <= count ==> (#[trigger] roots[k]) < n && labels@[roots[k] as int] == k,
                    forall|v: int| 0 <= v < n && #[trigger] labels@[v] != usize::MAX ==> roots[labels@[v] as int] <= v,
                    forall|a: int, b: int| 0 <= a < b <= count ==> #[trigger] roots[a] < #[trigger] roots[b],
                    forall|k: int| 0 <= k < count ==> #[trigger] roots[k] < start,
                    stack@.no_duplicates(),
                    forall|j: int| 0 <= j < stack@.len() ==> (#[trigger] stack@[j]) < n && labels@[stack@[j] as int] == count,
                    forall|v: int, u: usize| 0 <= v < n && #[trigger] labels@[v] != usize::MAX && !stack@.contains(v as usize)
                        && u < n && #[trigger] adjacent(edges, v as usize, u) ==> labels@[u as int] == labels@[v],
                    labelled(labels@).finite(),
                    labelled(labels@).len() <= n,
                ensures
                    forall|v: int, u: usize| 0 <= v < n && #[trigger] labels@[v] != usize::MAX
                        && u < n && #[trigger] adjacent(edges, v as usize, u) ==> labels@[u as int] == labels@[v],
                decreases 2 * (n - labelled(labels@).len()) + stack@.len(),
            {
                let ghost before_pop = stack@;
                let popped = stack.pop();
                let vertex = match popped {
                    Some(vertex) => vertex,
                    None => break,
                };
                proof {
                    assert(before_pop.last() == vertex);
                    assert(stack@ =~= before_pop.drop_last());
                    assert(!stack@.contains(vertex)) by {
                        if stack@.contains(vertex) {
                            let j = choose|j: int| 0 <= j < stack@.len() && stack@[j] == vertex;
                            assert(before_pop[j] == before_pop[before_pop.len() - 1]);
                        }
                    }
                }
                let list = &neighbours[vertex];
                let ghost base_len = labelled(labels@).len();
                proof {
                    assert forall|i: int| 0 <= i < list@.len() implies (#[trigger] list@[i]) < n by {
                        assert(list@.contains(list@[i]));
                        assert(adjacent(edges, vertex, list@[i]));
                        let k = choose|k: int| 0 <= k < edges.len() && ((edges[k][0] == vertex && edges[k][1] == list@[i]) || (edges[k][0] == list@[i] && edges[k][1] == vertex));
                        assert(edges[k].len() == 2);
                    }
                }
                let mut j: usize = 0;
                while j < list.len()
                    invariant
                        vertex < n == self.vertices@.len(),
                        count < n,
                        edges == self@.edges,
                        self@.edges_fit(),
                        list@ == neighbour_list(edges, vertex),
                        forall|v: usize, u: usize| #[trigger] neighbour_list(edges, v).contains(u) <==> adjacent(edges, v, u),
                        j <= list@.len(),
                        forall|i: int| 0 <= i < list@.len() ==> (#[trigger] list@[i]) < n,
                        labels@.len() == n,
                        roots.len() == count + 1,
                        labels@[vertex as int] == count,
                        forall|v: int| 0 <= v < start ==> #[trigger] labels@[v] != usize::MAX,
                        forall|v: int| 0 <= v < n && labels@[v] != usize::MAX ==> #[trigger] labels@[v] <= count,
                        forall|v: int| 0 <= v < n && #[trigger] labels@[v] != usize::MAX ==> connected(edges, roots[labels@[v] as int], v as usize),
                        forall|k: int| 0 <= k <= count ==> (#[trigger] roots[k]) < n && labels@[roots[k] as int] == k,
                        roots[count as int] == start,
                        forall|v: int| 0 <= v < n && #[trigger] labels@[v] != usize::MAX ==> roots[labels@[v] as int] <= v,
                        forall|a: int, b: int| 0 <= a < b <= count ==> #[trigger] roots[a] < #[trigger] roots[b],
                        forall|k: int| 0 <= k < count ==> #[trigger] roots[k] < start,
                        stack@.no_duplicates(),
                        !stack@.contains(vertex),
                        forall|i: int| 0 <= i < stack@.len() ==> (#[trigger] stack@[i]) < n && labels@[stack@[i] as int] == count,
                        forall|i: int| 0 <= i < j ==> labels@[#[trigger] list@[i] as int] == count,
                        forall|v: int, u: usize| 0 <= v < n && #[trigger] labels@[v] != usize::MAX && !stack@.contains(v as usize)
                            && v != vertex && u < n && #[trigger] adjacent(edges, v as usize, u) ==> labels@[u as int] == labels@[v],
                        labelled(labels@).finite(),
                        labelled(labels@).len() <= n,
                        2 * (n - labelled(labels@).len()) + stack@.len() + 1 <= 2 * (n - base_len) + before_pop.len(),
                    decreases list@.len() - j,
                {
                    let next = list[j];
                    proof {
                        assert(list@.contains(next));
                        assert(adjacent(edges, vertex, next));
                        let i = choose|i: int| 0 <= i < edges.len() && ((edges[i][0] == vertex && edges[i][1] == next) || (edges[i][0] == next && edges[i][1] == vertex));
                        assert(edges[i].len() == 2);
                    }
                    if labels[next] == usize::MAX {
                        let ghost old_labels = labels@;
                        labels.set(next, count);
                        proof {
                            assert(labelled(labels@) =~= labelled(old_labels).insert(next as int));
                            lemma_labelled_bound(labels@);
                            lemma_connected_step(edges, roots[count as int], vertex, next);
                            assert forall|v: int, u: usize| 0 <= v < n && #[trigger] labels@[v] != usize::MAX && !stack@.push(next).contains(v as usize)
                                && v != vertex && u < n && #[trigger] adjacent(edges, v as usize, u) implies labels@[u as int] == labels@[v] by {
                                assert(stack@.push(next)[stack@.len() as int] == next);
                                assert(v != next);
                                assert(old_labels[v] != usize::MAX);
                                assert(!stack@.contains(v as usize)) by {
                                    if stack@.contains(v as usize) {
                                        let k = choose|k: int| 0 <= k < stack@.len() && stack@[k] == v as usize;
                                        assert(stack@.push(next)[k] == v as usize);
                                    }
                                }
                                assert(old_labels[u as int] == old_labels[v]);
                            }
                            assert forall|i: int| 0 <= i < j + 1 implies labels@[#[trigger] list@[i] as int] == count by {
                                if i < j {
                                    assert(old_labels[list@[i] as int] == count);
                                } else {
                                    assert(list@[i] == next);
                                    assert(labels@[next as int] == count);
                                }
                            }
                        }
                        let ghost before_push = stack@;
                        stack.push(next);
                        proof {
                            assert forall|a: int, b: int| 0 <= a < b < stack@.len() implies stack@[a] != stack@[b] by {
                                if b == stack@.len() - 1 {
                                    assert(labels@[before_push[a] as int] == count);
                                    assert(old_labels[before_push[a] as int] == count);
                                }
                            }
                        }
                    } else {
                        proof {
                            assert(next < n);
                            if labels@[next as int] != count {
                                assert(labels@[next as int] < count);
                                assert(!stack@.contains(next)) by {
                                    if stack@.contains(next) {
                                        let k = choose|k: int| 0 <= k < stack@.len() && stack@[k] == next;
                                    }
                                }
                                assert(adjacent(edges, next, vertex));
                                assert(labels@[vertex as int] == labels@[next as int]);
                            }
                        }
                    }
                    j = j + 1;
                }
                proof {
                    assert forall|u: usize| u < n && #[trigger] adjacent(edges, vertex, u) implies labels@[u as int] == labels@[vertex as int] by {
                        assert(list@.contains(u));
                        let i = choose|i: int| 0 <= i < list@.len() && list@[i] == u;
                    }
                }
            }
            count = count + 1;
            start = start + 1;
        }
        proof {
            assert forall|v: int, u: int| 0 <= v < n && 0 <= u < n && #[trigger] labels@[v] == #[trigger] labels@[u]
                implies connected(edges, v as usize, u as usize) by {
                let root = roots[labels@[v] as int];
                lemma_connected_symmetric(edges, root, v as usize);
                lemma_connected_transitive(edges, v as usize, root, u as usize);
            }
            assert forall|i: int| 0 <= i < edges.len() implies labels@[#[trigger] edges[i][0] as int] == labels@[edges[i][1] as int] by {
                assert(edges[i].len() == 2);
                assert(labels@[edges[i][0] as int] != usize::MAX);
                assert(adjacent(edges, edges[i][0], edges[i][1]));
            }
            assert forall|k: int| 0 <= k < count implies #[trigger] label_used(labels@, k) by {
                assert(labels@[roots[k] as int] == k);
            }
            assert forall|v: int| 0 <= v < labels@.len() && #[trigger] labels@[v] > 0
                implies exists|u: int| 0 <= u < v && labels@[u] == labels@[v] - 1 by {
                let k = labels@[v] as int;
                assert(labels@[v] != usize::MAX);
                assert(roots[k - 1] < roots[k]);
                assert(labels@[roots[k - 1] as int] == k - 1);
            }
        }
        (labels, count)
    }
}

} // verus!

verus! {

impl Mesh {
    /// All vertices joined by a walk along edges to one of `vertices`, in increasing order.
    pub fn linked(&self, vertices: &[usize]) -> (found: Vec<usize>)
        requires
            self@.edges_fit(),
            forall|i: int| 0 <= i < vertices@.len() ==> #[trigger] vertices@[i] < self.vertices@.len(),
        ensures
            crate::faces::strictly_increasing(found@),
            forall|v: usize| found@.contains(v) <==> v < self.vertices@.len() && reaches(self@.edges, vertices@, v),
    {
        let (labels, count) = self.components();
        let n = self.vertices.len();
        let ghost edges = self@.edges;
        let mut selected: Vec<bool> = Vec::new();
        let mut k: usize = 0;
        while k < count
            invariant
                k <= count,
                selected@.len() == k,
                forall|c: int| 0 <= c < k ==> !(#[trigger] selected@[c]),
            decreases count - k,
        {
            selected.push(false);
            k = k + 1;
        }
        let mut i: usize = 0;
        while i < vertices.len()
            invariant
                is_labelling(self@, labels@, count),
                n == self.vertices@.len(),
                forall|j: int| 0 <= j < vertices@.len() ==> #[trigger] vertices@[j] < n,
                selected@.len() == count,
                i <= vertices@.len(),
                forall|c: int| 0 <= c < count ==> (#[trigger] selected@[c] <==> exists|j: int| 0 <= j < i && labels@[#[trigger] vertices@[j] as int] == c),
            decreases vertices@.len() - i,
        {
            let label = labels[vertices[i]];
            selected.set(label, true);
            proof {
                assert forall|c: int| 0 <= c < count implies (#[trigger] selected@[c] <==> exists|j: int| 0 <= j < i + 1 && labels@[#[trigger] vertices@[j] as int] == c) by {
                    if c == label {
                        assert(labels@[vertices@[i as int] as int] == c);
                    }
                }
            }
            i = i + 1;
        }
        let mut found: Vec<usize> = Vec::new();
        let mut v: usize = 0;
        while v < n
            invariant
                is_labelling(self@, labels@, count),
                n == self.vertices@.len(),
                edges == self@.edges,
                forall|j: int| 0 <= j < vertices@.len() ==> #[trigger] vertices@[j] < n,
                selected@.len() == count,
                forall|c: int| 0 <= c < count ==> (#[trigger] selected@[c] <==> exists|j: int| 0 <= j < vertices@.len() && labels@[#[trigger] vertices@[j] as int] == c),
                v <= n,
                crate::faces::strictly_increasing(found@),
                forall|j: int| 0 <= j < found@.len() ==> #[trigger] found@[j] < v,
                forall|u: usize| found@.contains(u) <==> u < v && selected@[labels@[u as int] as int],
            decreases n - v,
        {
            if selected[labels[v]] {
                found.push(v);
            }
            v = v + 1;
        }
        proof {
            assert forall|u: usize| found@.contains(u) <==> u < n
                && exists|i: int| 0 <= i < vertices@.len() && connected(edges, #[trigger] vertices@[i], u) by {
                if u < n {
                    assert(labels@[u as int] < count);
                    if selected@[labels@[u as int] as int] {
                        let j = choose|j: int| 0 <= j < vertices@.len() && labels@[#[trigger] vertices@[j] as int] == labels@[u as int];
                        assert(connected(edges, vertices@[j], u));
                    }
                    if exists|i: int| 0 <= i < vertices@.len() && connected(edges, #[trigger] vertices@[i], u) {
                        let i = choose|i: int| 0 <= i < vertices@.len() && connected(edges, #[trigger] vertices@[i], u);
                        lemma_connected_labels(self@, labels@, count, vertices@[i], u);
                        assert(labels@[vertices@[i] as int] == labels@[u as int]);
                    }
                }
            }
        }
        found
    }
}

/// Vertices joined by a walk carry the same component label.
pub proof fn lemma_connected_labels(mesh: MeshView, labels: Seq<usize>, count: usize, a: usize, b: usize)
    requires
        mesh.edges_fit(),
        is_labelling(mesh, labels, count),
        a < mesh.vertices.len(),
        connected(mesh.edges, a, b),
    ensures
        b < mesh.vertices.len(),
        labels[a as int] == labels[b as int],
{
    let path = choose|path: Seq<usize>| #[trigger] is_path(mesh.edges, path) && path[0] == a && path.last() == b;
    lemma_path_labels(mesh, labels, count, path, path.len() - 1);
}

proof fn lemma_path_labels(mesh: MeshView, labels: Seq<usize>, count: usize, path: Seq<usize>, i: int)
    requires
        mesh.edges_fit(),
        is_labelling(mesh, labels, count),
        is_path(mesh.edges, path),
        path[0] < mesh.vertices.len(),
        0 <= i < path.len(),
    ensures
        path[i] < mesh.vertices.len(),
        labels[path[i] as int] == labels[path[0] as int],
    decreases i,
{
    if i > 0 {
        lemma_path_labels(mesh, labels, count, path, i - 1);
        assert(adjacent(mesh.edges, path[i - 1], path[i]));
        let k = choose|k: int| 0 <= k < mesh.edges.len() && ((mesh.edges[k][0] == path[i - 1] && mesh.edges[k][1] == path[i]) || (mesh.edges[k][0] == path[i] && mesh.edges[k][1] == path[i - 1]));
        assert(mesh.edges[k].len() == 2);
        assert(labels[mesh.edges[k][0] as int] == labels[mesh.edges[k][1] as int]);
    }
}

} // verus!

verus! {

/// Whether the label `k` occurs before position `v`.
pub open spec fn occurs(labels: Seq<usize>, v: int, k: usize) -> bool {
    exists|u: int| 0 <= u < v && #[trigger] labels[u] == k
}

/// How many labels first occur before position `v`.
pub open spec fn fresh_count(labels: Seq<usize>, v: nat) -> nat
    decreases v,
{
    if v == 0 {
        0
    } else {
        fresh_count(labels, (v - 1) as nat) + if occurs(labels, v - 1, labels[v - 1]) { 0nat } else { 1nat }
    }
}

/// The components of a mesh, numbered in the order of their first vertices: the label of
/// each vertex and the number of labels.
pub open spec fn component_labels(mesh: MeshView) -> (Seq<usize>, usize) {
    choose|labels: Seq<usize>, count: usize| is_labelling(mesh, labels, count) && numbered_in_order(labels)
}

/// Labels numbered in order of first occurrence: the labels before position `v` are
/// exactly those below `fresh_count`.
proof fn lemma_fresh_count(labels: Seq<usize>, v: nat)
    requires
        numbered_in_order(labels),
        v <= labels.len(),
    ensures
        forall|k: usize| #[trigger] occurs(labels, v as int, k) <==> k < fresh_count(labels, v),
    decreases v,
{
    if v > 0 {
        let w = (v - 1) as nat;
        lemma_fresh_count(labels, w);
        let x = labels[w as int];
        if !occurs(labels, w as int, x) {
            if x > 0 {
                let u = choose|u: int| 0 <= u < w && labels[u] == x - 1;
                assert(occurs(labels, w as int, (x - 1) as usize));
            }
            if x < fresh_count(labels, w) {
                assert(occurs(labels, w as int, x));
            }
        }
        assert forall|k: usize| #[trigger] occurs(labels, v as int, k) <==> k < fresh_count(labels, v) by {
            if occurs(labels, v as int, k) {
                let u = choose|u: int| 0 <= u < v && #[trigger] labels[u] == k;
                if u < w {
                    assert(occurs(labels, w as int, k));
                }
            }
            if k < fresh_count(labels, v) && !(k < fresh_count(labels, w)) {
                assert(labels[w as int] == k);
                assert(occurs(labels, v as int, k));
            }
            if k < fresh_count(labels, w) {
                assert(occurs(labels, w as int, k));
                let u = choose|u: int| 0 <= u < w && #[trigger] labels[u] == k;
                assert(0 <= u < v && labels[u] == k);
            }
        }
    }
}

/// A labelling of the components numbered in order of their first vertices.
#[verifier::opaque]
pub open spec fn ordered_labelling(mesh: MeshView, labels: Seq<usize>, count: usize) -> bool {
    is_labelling(mesh, labels, count) && numbered_in_order(labels)
}

proof fn lemma_joined_labels(mesh: MeshView, labels: Seq<usize>, count: usize, u: usize, w: usize)
    requires
        mesh.edges_fit(),
        ordered_labelling(mesh, labels, count),
        u < mesh.vertices.len(),
        connected(mesh.edges, u, w),
    ensures
        labels[u as int] == labels[w as int],
{
    reveal(ordered_labelling);
    lemma_connected_labels(mesh, labels, count, u, w);
}

/// A vertex joined to no vertex before it starts a new label: the next one in order.
proof fn lemma_fresh_label(mesh: MeshView, labels: Seq<usize>, count: usize, w: int)
    requires
        mesh.edges_fit(),
        ordered_labelling(mesh, labels, count),
        mesh.vertices.len() <= usize::MAX,
        0 <= w < mesh.vertices.len(),
        !exists|u: int| 0 <= u < w && #[trigger] connected(mesh.edges, u as usize, w as usize),
    ensures
        labels[w] == fresh_count(labels, w as nat),
{
    reveal(ordered_labelling);
    assert(!occurs(labels, w, labels[w])) by {
        if occurs(labels, w, labels[w]) {
            let u = choose|u: int| 0 <= u < w && #[trigger] labels[u] == labels[w];
            assert(connected(mesh.edges, u as usize, w as usize));
        }
    }
    lemma_fresh_count(labels, w as nat);
    lemma_fresh_count(labels, (w + 1) as nat);
    assert(occurs(labels, w + 1, labels[w]));
    assert(labels[w] < fresh_count(labels, (w + 1) as nat));
    if labels[w] < fresh_count(labels, w as nat) {
        assert(occurs(labels, w, labels[w]));
    }
}

proof fn lemma_labels_prefix(mesh: MeshView, a: Seq<usize>, ca: usize, b: Seq<usize>, cb: usize, v: nat)
    requires
        mesh.edges_fit(),
        ordered_labelling(mesh, a, ca),
        ordered_labelling(mesh, b, cb),
        mesh.vertices.len() <= usize::MAX,
        a.len() == mesh.vertices.len(),
        b.len() == mesh.vertices.len(),
        v <= a.len(),
    ensures
        forall|u: int| 0 <= u < v ==> a[u] == b[u],
    decreases v,
{
    if v > 0 {
        let w = (v - 1) as int;
        lemma_labels_prefix(mesh, a, ca, b, cb, w as nat);
        if exists|u: int| 0 <= u < w && #[trigger] connected(mesh.edges, u as usize, w as usize) {
            let u = choose|u: int| 0 <= u < w && #[trigger] connected(mesh.edges, u as usize, w as usize);
            lemma_joined_labels(mesh, a, ca, u as usize, w as usize);
            lemma_joined_labels(mesh, b, cb, u as usize, w as usize);
        } else {
            lemma_fresh_label(mesh, a, ca, w);
            lemma_fresh_label(mesh, b, cb, w);
            lemma_fresh_count_prefix(a, b, w as nat);
        }
    }
}

/// Two labellings that both number the components in order of their first vertices are
/// the same.
pub proof fn lemma_labels_unique(mesh: MeshView, a: Seq<usize>, ca: usize, b: Seq<usize>, cb: usize)
    requires
        mesh.edges_fit(),
        mesh.vertices.len() <= usize::MAX,
        is_labelling(mesh, a, ca),
        numbered_in_order(a),
        is_labelling(mesh, b, cb),
        numbered_in_order(b),
    ensures
        a == b,
        ca == cb,
{
    reveal(ordered_labelling);
    lemma_labels_prefix(mesh, a, ca, b, cb, a.len());
    assert(a =~= b);
    lemma_count_is_fresh(a, ca);
    lemma_count_is_fresh(b, cb);
}

proof fn lemma_fresh_count_prefix(a: Seq<usize>, b: Seq<usize>, v: nat)
    requires
        v <= a.len(),
        v <= b.len(),
        forall|u: int| 0 <= u < v ==> a[u] == b[u],
    ensures
        fresh_count(a, v) == fresh_count(b, v),
    decreases v,
{
    if v > 0 {
        lemma_fresh_count_prefix(a, b, (v - 1) as nat);
        let w = v - 1;
        assert(occurs(a, w, a[w]) == occurs(b, w, b[w])) by {
            if occurs(a, w, a[w]) {
                let u = choose|u: int| 0 <= u < w && #[trigger] a[u] == a[w];
                assert(b[u] == b[w]);
            }
            if occurs(b, w, b[w]) {
                let u = choose|u: int| 0 <= u < w && #[trigger] b[u] == b[w];
                assert(a[u] == a[w]);
            }
        }
    }
}

/// In a labelling numbered in order, the number of labels is how many first occur.
proof fn lemma_count_is_fresh(labels: Seq<usize>, count: usize)
    requires
        numbered_in_order(labels),
        count <= labels.len(),
        forall|v: int| 0 <= v < labels.len() ==> #[trigger] labels[v] < count,
        forall|k: int| 0 <= k < count ==> #[trigger] label_used(labels, k),
    ensures
        count == fresh_count(labels, labels.len()),
{
    let f = fresh_count(labels, labels.len());
    lemma_fresh_count(labels, labels.len());
    if count < f {
        assert(occurs(labels, labels.len() as int, count as usize));
        let u = choose|u: int| 0 <= u < labels.len() && #[trigger] labels[u] == count as usize;
    }
    if f < count {
        assert(label_used(labels, f as int));
        let u = choose|u: int| 0 <= u < labels.len() && labels[u] == f;
        assert(occurs(labels, labels.len() as int, f as usize));
    }
}

} // verus!

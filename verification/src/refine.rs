use crate::construct::index_range;
use crate::faces::listed;
use crate::graph::{color_keys, keys_below, layer_exists};
use crate::history::views;
use crate::mesh::{Mesh, MeshView, Point, Rgba};
use vstd::prelude::*;

verus! {

broadcast use vstd::seq_lib::group_seq_properties;

/// The positions of the edges whose ends are both among `list`, in increasing order.
pub open spec fn target_edges(edges: Seq<Seq<usize>>, list: Seq<usize>) -> Seq<usize>
    decreases edges.len(),
{
    if edges.len() == 0 {
        Seq::empty()
    } else {
        let prior = target_edges(edges.drop_last(), list);
        let e = edges.last();
        if list.contains(e[0]) && list.contains(e[1]) { prior.push((edges.len() - 1) as usize) } else { prior }
    }
}

/// A face key that gains `mid` when it holds both `a` and `b`.
pub open spec fn key_with_midpoint(key: Seq<usize>, a: usize, b: usize, mid: usize) -> Seq<usize> {
    if key.contains(a) && key.contains(b) { key.push(mid) } else { key }
}

/// The mesh once edge `index` is split at a new vertex at `pos`: the vertex goes on the
/// layer of the edge's first end, the edge ends at it and a new edge leads on from it,
/// and every face holding both ends of the edge gains it.
pub open spec fn split_edge(mesh: MeshView, index: int, pos: Point) -> MeshView {
    let (a, b) = (mesh.edges[index][0], mesh.edges[index][1]);
    let mid = mesh.vertices.len() as usize;
    MeshView {
        vertices: mesh.vertices.push(pos),
        vertex_layers: mesh.vertex_layers.push(mesh.vertex_layers[a as int]),
        edges: mesh.edges.update(index, seq![a, mid]).push(seq![mid, b]),
        holes: mesh.holes.map_values(|key: Seq<usize>| key_with_midpoint(key, a, b, mid)),
        colors: mesh.colors.map_values(|entry: (Seq<usize>, Rgba)| (key_with_midpoint(entry.0, a, b, mid), entry.1)),
        ..mesh
    }
}

/// The mesh once the edges at `targets` are split, one after the other, the k-th at
/// `points[k]`.
pub open spec fn subdivided(mesh: MeshView, targets: Seq<usize>, points: Seq<Point>) -> MeshView
    decreases targets.len(),
{
    if targets.len() == 0 {
        mesh
    } else {
        let k = targets.len() - 1;
        split_edge(subdivided(mesh, targets.drop_last(), points), targets[k] as int, points[k])
    }
}

proof fn lemma_split_edge(mesh: MeshView, index: int, pos: Point)
    requires
        mesh.well_formed(),
        0 <= index < mesh.edges.len(),
        mesh.vertices.len() < usize::MAX,
    ensures
        split_edge(mesh, index, pos).well_formed(),
        split_edge(mesh, index, pos).images == mesh.images,
        split_edge(mesh, index, pos).edges.len() == mesh.edges.len() + 1,
        split_edge(mesh, index, pos).vertices.len() == mesh.vertices.len() + 1,
{
    let after = split_edge(mesh, index, pos);
    let n = mesh.vertices.len();
    let (a, b) = (mesh.edges[index][0], mesh.edges[index][1]);
    assert(mesh.edges[index].len() == 2);
    assert(a < n);
    assert(b < n);
    assert forall|v: int| 0 <= v < after.vertex_layers.len() implies layer_exists(after.layers, #[trigger] after.vertex_layers[v]) by {
        if v < n {
            assert(after.vertex_layers[v] == mesh.vertex_layers[v]);
        } else {
            assert(after.vertex_layers[v] == mesh.vertex_layers[a as int]);
        }
    }
    assert forall|i: int| 0 <= i < after.edges.len() implies #[trigger] after.edges[i].len() == 2
        && after.edges[i][0] < after.vertices.len() && after.edges[i][1] < after.vertices.len() by {
        if i < mesh.edges.len() && i != index {
            assert(after.edges[i] == mesh.edges[i]);
            assert(mesh.edges[i].len() == 2);
            assert(mesh.edges[i][0] < n);
            assert(mesh.edges[i][1] < n);
        }
    }
    assert forall|i: int, j: int| 0 <= i < after.holes.len() && 0 <= j < after.holes[i].len() implies after.holes[i][j] < after.vertices.len() by {
        assert(after.holes[i] == key_with_midpoint(mesh.holes[i], a, b, n as usize));
        if j < mesh.holes[i].len() {
            assert(after.holes[i][j] == mesh.holes[i][j]);
        }
    }
    let keys = color_keys(after.colors);
    assert forall|i: int, j: int| 0 <= i < keys.len() && 0 <= j < keys[i].len() implies keys[i][j] < after.vertices.len() by {
        let old_key = mesh.colors[i].0;
        assert(color_keys(mesh.colors)[i] == old_key);
        assert(keys[i] == key_with_midpoint(old_key, a, b, n as usize));
        if j < old_key.len() {
            assert(keys[i][j] == old_key[j]);
            assert(color_keys(mesh.colors)[i][j] < n);
        }
    }
}

pub(crate) proof fn lemma_subdivided(mesh: MeshView, targets: Seq<usize>, points: Seq<Point>)
    requires
        mesh.well_formed(),
        mesh.vertices.len() + targets.len() <= usize::MAX,
        points.len() >= targets.len(),
        forall|k: int| 0 <= k < targets.len() ==> #[trigger] targets[k] < mesh.edges.len(),
    ensures
        subdivided(mesh, targets, points).well_formed(),
        subdivided(mesh, targets, points).edges.len() == mesh.edges.len() + targets.len(),
        subdivided(mesh, targets, points).vertices.len() == mesh.vertices.len() + targets.len(),
    decreases targets.len(),
{
    if targets.len() > 0 {
        let k = targets.len() - 1;
        lemma_subdivided(mesh, targets.drop_last(), points);
        assert(targets[k] < mesh.edges.len());
        lemma_split_edge(subdivided(mesh, targets.drop_last(), points), targets[k] as int, points[k]);
    }
}

} // verus!

verus! {

pub(crate) proof fn lemma_target_edges(edges: Seq<Seq<usize>>, list: Seq<usize>)
    ensures
        forall|k: int| 0 <= k < target_edges(edges, list).len() ==> #[trigger] target_edges(edges, list)[k] < edges.len(),
        target_edges(edges, list).len() <= edges.len(),
    decreases edges.len(),
{
    if edges.len() > 0 {
        lemma_target_edges(edges.drop_last(), list);
        let (now, was) = (target_edges(edges, list), target_edges(edges.drop_last(), list));
        assert forall|k: int| 0 <= k < now.len() implies #[trigger] now[k] < edges.len() by {
            if k < was.len() {
                assert(now[k] == was[k]);
            }
        }
    }
}

/// Whether `key` holds both ends of `edge`.
pub open spec fn holds_both(key: Seq<usize>, edge: Seq<usize>) -> bool {
    key.contains(edge[0]) && key.contains(edge[1])
}

/// `after` is `before` followed by new vertices only: each is vertex `n + k` for a split
/// edge `edges[targets[k]]` whose two ends `before` holds, and every such vertex is there.
pub open spec fn gains_midpoints(after: Seq<usize>, before: Seq<usize>, edges: Seq<Seq<usize>>, targets: Seq<usize>, n: nat) -> bool {
    &&& before.len() <= after.len()
    &&& after.take(before.len() as int) == before
    &&& forall|j: int| before.len() <= j < after.len() ==> n <= #[trigger] after[j] < n + targets.len()
        && holds_both(before, edges[targets[after[j] - n] as int])
    &&& forall|k: int| 0 <= k < targets.len() && #[trigger] holds_both(before, edges[targets[k] as int])
        ==> after.contains((n + k) as usize)
}

proof fn lemma_subdivided_edge(mesh: MeshView, targets: Seq<usize>, points: Seq<Point>, e: int)
    requires
        0 <= e < mesh.edges.len(),
        !targets.contains(e as usize),
        forall|k: int| 0 <= k < targets.len() ==> #[trigger] targets[k] < mesh.edges.len(),
    ensures
        subdivided(mesh, targets, points).edges.len() == mesh.edges.len() + targets.len(),
        subdivided(mesh, targets, points).edges[e] == mesh.edges[e],
    decreases targets.len(),
{
    if targets.len() > 0 {
        let front = targets.drop_last();
        assert forall|k: int| 0 <= k < front.len() implies #[trigger] front[k] < mesh.edges.len() by {
            assert(front[k] == targets[k]);
        }
        assert(!front.contains(e as usize)) by {
            if front.contains(e as usize) {
                let k = choose|k: int| 0 <= k < front.len() && front[k] == e as usize;
                assert(targets[k] == e as usize);
            }
        }
        lemma_subdivided_edge(mesh, front, points, e);
        assert(targets[targets.len() - 1] != e as usize);
    }
}

/// A key that grew only by vertices from `n` on holds a vertex below `n` exactly when
/// the key it grew from does.
proof fn lemma_grown_contains(after: Seq<usize>, before: Seq<usize>, edges: Seq<Seq<usize>>, targets: Seq<usize>, n: nat, v: usize)
    requires
        gains_midpoints(after, before, edges, targets, n),
        v < n,
    ensures
        after.contains(v) == before.contains(v),
{
    if before.contains(v) {
        let j = choose|j: int| 0 <= j < before.len() && before[j] == v;
        assert(after.take(before.len() as int)[j] == v);
    }
    if after.contains(v) {
        let j = choose|j: int| 0 <= j < after.len() && after[j] == v;
        if j < before.len() {
            assert(after.take(before.len() as int)[j] == v);
        } else {
            assert(n <= after[j]);
        }
    }
}

/// One more split: a key that grew from `before` by the first `m` splits grows by the
/// next one exactly when `before` holds both ends of its edge.
proof fn lemma_gains_step(prev: Seq<usize>, before: Seq<usize>, edges: Seq<Seq<usize>>, targets: Seq<usize>, n: nat)
    requires
        targets.len() > 0,
        gains_midpoints(prev, before, edges, targets.drop_last(), n),
        edges[targets.last() as int].len() == 2,
        edges[targets.last() as int][0] < n,
        edges[targets.last() as int][1] < n,
        n + targets.len() <= usize::MAX + 1,
    ensures
        ({
            let edge = edges[targets.last() as int];
            gains_midpoints(key_with_midpoint(prev, edge[0], edge[1], (n + targets.len() - 1) as usize), before, edges, targets, n)
        }),
{
    let m = targets.len() - 1;
    let front = targets.drop_last();
    let edge = edges[targets[m] as int];
    let (a, b) = (edge[0], edge[1]);
    let mid = (n + m) as usize;
    assert(targets.last() == targets[m]);
    lemma_grown_contains(prev, before, edges, front, n, a);
    lemma_grown_contains(prev, before, edges, front, n, b);
    let after = key_with_midpoint(prev, a, b, mid);
    let both = holds_both(before, edges[targets[m] as int]);
    assert(prev.contains(a) && prev.contains(b) <==> both);
    assert(after.take(before.len() as int) =~= before) by {
        assert(after.take(before.len() as int) =~= prev.take(before.len() as int));
    }
    assert forall|j: int| before.len() <= j < after.len() implies n <= #[trigger] after[j] < n + targets.len()
        && holds_both(before, edges[targets[after[j] - n] as int]) by {
        if j < prev.len() {
            assert(after[j] == prev[j]);
            assert(n <= prev[j] < n + front.len());
            assert(front[prev[j] - n] == targets[prev[j] - n]);
        } else {
            assert(after[j] == mid);
            assert(holds_both(before, edges[targets[m] as int]));
        }
    }
    assert forall|k: int| 0 <= k < targets.len() && #[trigger] holds_both(before, edges[targets[k] as int])
        implies after.contains((n + k) as usize) by {
        if k < m {
            assert(front[k] == targets[k]);
            assert(holds_both(before, edges[front[k] as int]));
            let j = choose|j: int| 0 <= j < prev.len() && prev[j] == (n + k) as usize;
            assert(after[j] == prev[j]);
        } else {
            assert(after[prev.len() as int] == mid);
        }
    }
    assert(after.len() >= before.len());
}

proof fn lemma_subdivided_faces(mesh: MeshView, targets: Seq<usize>, points: Seq<Point>)
    requires
        mesh.well_formed(),
        mesh.vertices.len() + targets.len() <= usize::MAX,
        points.len() >= targets.len(),
        forall|k: int| 0 <= k < targets.len() ==> #[trigger] targets[k] < mesh.edges.len(),
        forall|j: int, k: int| 0 <= j < k < targets.len() ==> targets[j] != targets[k],
    ensures
        ({
            let after = subdivided(mesh, targets, points);
            let n = mesh.vertices.len();
            &&& after.holes.len() == mesh.holes.len()
            &&& after.colors.len() == mesh.colors.len()
            &&& forall|i: int| 0 <= i < mesh.holes.len()
                ==> gains_midpoints(#[trigger] after.holes[i], mesh.holes[i], mesh.edges, targets, n)
            &&& forall|i: int| 0 <= i < mesh.colors.len()
                ==> gains_midpoints((#[trigger] after.colors[i]).0, mesh.colors[i].0, mesh.edges, targets, n)
                    && after.colors[i].1 == mesh.colors[i].1
        }),
    decreases targets.len(),
{
    let n = mesh.vertices.len();
    let after = subdivided(mesh, targets, points);
    if targets.len() == 0 {
        assert forall|i: int| 0 <= i < mesh.holes.len()
            implies gains_midpoints(#[trigger] after.holes[i], mesh.holes[i], mesh.edges, targets, n) by {
            assert(mesh.holes[i].take(mesh.holes[i].len() as int) =~= mesh.holes[i]);
        }
        assert forall|i: int| 0 <= i < mesh.colors.len()
            implies gains_midpoints((#[trigger] after.colors[i]).0, mesh.colors[i].0, mesh.edges, targets, n) by {
            assert(mesh.colors[i].0.take(mesh.colors[i].0.len() as int) =~= mesh.colors[i].0);
        }
    } else {
        let m = targets.len() - 1;
        let front = targets.drop_last();
        assert forall|k: int| 0 <= k < front.len() implies #[trigger] front[k] < mesh.edges.len() by {
            assert(front[k] == targets[k]);
        }
        assert forall|j: int, k: int| 0 <= j < k < front.len() implies front[j] != front[k] by {
            assert(front[j] == targets[j] && front[k] == targets[k]);
        }
        lemma_subdivided_faces(mesh, front, points);
        lemma_subdivided(mesh, front, points);
        let t = targets[m];
        assert(!front.contains(t)) by {
            if front.contains(t) {
                let k = choose|k: int| 0 <= k < front.len() && front[k] == t;
                assert(targets[k] == t);
            }
        }
        lemma_subdivided_edge(mesh, front, points, t as int);
        let prev = subdivided(mesh, front, points);
        assert(prev.edges[t as int] == mesh.edges[t as int]);
        assert(mesh.edges[t as int].len() == 2);
        let (a, b) = (mesh.edges[t as int][0], mesh.edges[t as int][1]);
        assert(prev.vertices.len() == n + m);
        assert(after == split_edge(prev, t as int, points[m]));
        assert forall|i: int| 0 <= i < mesh.holes.len()
            implies gains_midpoints(#[trigger] after.holes[i], mesh.holes[i], mesh.edges, targets, n) by {
            assert(after.holes[i] == key_with_midpoint(prev.holes[i], a, b, (n + m) as usize));
            assert(gains_midpoints(prev.holes[i], mesh.holes[i], mesh.edges, front, n));
            lemma_gains_step(prev.holes[i], mesh.holes[i], mesh.edges, targets, n);
        }
        assert forall|i: int| 0 <= i < mesh.colors.len()
            implies gains_midpoints((#[trigger] after.colors[i]).0, mesh.colors[i].0, mesh.edges, targets, n)
                && after.colors[i].1 == mesh.colors[i].1 by {
            assert(after.colors[i] == (key_with_midpoint(prev.colors[i].0, a, b, (n + m) as usize), prev.colors[i].1));
            assert(gains_midpoints(prev.colors[i].0, mesh.colors[i].0, mesh.edges, front, n));
            lemma_gains_step(prev.colors[i].0, mesh.colors[i].0, mesh.edges, targets, n);
        }
    }
}

proof fn lemma_target_edges_increase(edges: Seq<Seq<usize>>, list: Seq<usize>)
    requires
        edges.len() <= usize::MAX,
    ensures
        forall|j: int, k: int| 0 <= j < k < target_edges(edges, list).len()
            ==> target_edges(edges, list)[j] < target_edges(edges, list)[k],
    decreases edges.len(),
{
    if edges.len() > 0 {
        lemma_target_edges_increase(edges.drop_last(), list);
        lemma_target_edges(edges.drop_last(), list);
        let (now, was) = (target_edges(edges, list), target_edges(edges.drop_last(), list));
        let top = (edges.len() - 1) as usize;
        let e = edges.last();
        if list.contains(e[0]) && list.contains(e[1]) {
            assert(now == was.push(top));
            assert forall|j: int, k: int| 0 <= j < k < now.len() implies now[j] < now[k] by {
                if k < was.len() {
                    assert(now[j] == was[j] && now[k] == was[k]);
                } else {
                    assert(k == was.len());
                    assert(now[k] == top);
                    assert(now[j] == was[j]);
                    assert(was[j] < edges.drop_last().len());
                }
            }
        } else {
            assert(now == was);
        }
    }
}

/// Subdividing gives the new vertex of the `k`-th split edge, vertex `n + k`, to exactly
/// the faces (holes and coloured faces) whose keys hold both ends of that edge, after the
/// vertices they had; a key that lacks an end of every split edge stays as it was, and
/// every face keeps its colour.
pub proof fn lemma_subdivide_faces(mesh: MeshView, list: Seq<usize>, points: Seq<Point>)
    requires
        mesh.well_formed(),
        mesh.edges.len() <= usize::MAX,
        points.len() == target_edges(mesh.edges, list).len(),
        mesh.vertices.len() + points.len() <= usize::MAX,
    ensures
        ({
            let targets = target_edges(mesh.edges, list);
            let after = subdivided(mesh, targets, points);
            let n = mesh.vertices.len();
            &&& after.holes.len() == mesh.holes.len()
            &&& after.colors.len() == mesh.colors.len()
            &&& forall|i: int| 0 <= i < mesh.holes.len()
                ==> gains_midpoints(#[trigger] after.holes[i], mesh.holes[i], mesh.edges, targets, n)
            &&& forall|i: int| 0 <= i < mesh.colors.len()
                ==> gains_midpoints((#[trigger] after.colors[i]).0, mesh.colors[i].0, mesh.edges, targets, n)
                    && after.colors[i].1 == mesh.colors[i].1
            &&& forall|i: int| 0 <= i < mesh.holes.len()
                && (forall|k: int| 0 <= k < targets.len() ==> !holds_both(mesh.holes[i], #[trigger] mesh.edges[targets[k] as int]))
                ==> after.holes[i] == mesh.holes[i]
            &&& forall|i: int| 0 <= i < mesh.colors.len()
                && (forall|k: int| 0 <= k < targets.len() ==> !holds_both(mesh.colors[i].0, #[trigger] mesh.edges[targets[k] as int]))
                ==> after.colors[i] == mesh.colors[i]
        }),
{
    let targets = target_edges(mesh.edges, list);
    lemma_target_edges(mesh.edges, list);
    lemma_target_edges_increase(mesh.edges, list);
    lemma_subdivided_faces(mesh, targets, points);
    let after = subdivided(mesh, targets, points);
    let n = mesh.vertices.len();
    assert forall|i: int| 0 <= i < mesh.holes.len()
        && (forall|k: int| 0 <= k < targets.len() ==> !holds_both(mesh.holes[i], #[trigger] mesh.edges[targets[k] as int]))
        implies after.holes[i] == mesh.holes[i] by {
        assert(gains_midpoints(after.holes[i], mesh.holes[i], mesh.edges, targets, n));
        if after.holes[i].len() > mesh.holes[i].len() {
            let j = mesh.holes[i].len() as int;
            let k = after.holes[i][j] - n;
            assert(!holds_both(mesh.holes[i], mesh.edges[targets[k] as int]));
        }
        assert(after.holes[i] =~= after.holes[i].take(mesh.holes[i].len() as int));
    }
    assert forall|i: int| 0 <= i < mesh.colors.len()
        && (forall|k: int| 0 <= k < targets.len() ==> !holds_both(mesh.colors[i].0, #[trigger] mesh.edges[targets[k] as int]))
        implies after.colors[i] == mesh.colors[i] by {
        assert(gains_midpoints(after.colors[i].0, mesh.colors[i].0, mesh.edges, targets, n));
        if after.colors[i].0.len() > mesh.colors[i].0.len() {
            let j = mesh.colors[i].0.len() as int;
            let k = after.colors[i].0[j] - n;
            assert(!holds_both(mesh.colors[i].0, mesh.edges[targets[k] as int]));
        }
        assert(after.colors[i].0 =~= after.colors[i].0.take(mesh.colors[i].0.len() as int));
    }
}

proof fn lemma_subdivided_shape(mesh: MeshView, targets: Seq<usize>, points: Seq<Point>)
    requires
        mesh.well_formed(),
        mesh.vertices.len() + targets.len() <= usize::MAX,
        points.len() >= targets.len(),
        forall|k: int| 0 <= k < targets.len() ==> #[trigger] targets[k] < mesh.edges.len(),
        forall|j: int, k: int| 0 <= j < k < targets.len() ==> targets[j] != targets[k],
    ensures
        ({
            let after = subdivided(mesh, targets, points);
            let n = mesh.vertices.len();
            let m = mesh.edges.len();
            &&& after.vertices == mesh.vertices + points.take(targets.len() as int)
            &&& after.layers == mesh.layers
            &&& after.images == mesh.images
            &&& after.vertex_layers.len() == n + targets.len()
            &&& forall|v: int| 0 <= v < n ==> #[trigger] after.vertex_layers[v] == mesh.vertex_layers[v]
            &&& forall|k: int| 0 <= k < targets.len() ==> #[trigger] after.vertex_layers[n + k]
                == mesh.vertex_layers[mesh.edges[targets[k] as int][0] as int]
            &&& after.edges.len() == m + targets.len()
            &&& forall|k: int| 0 <= k < targets.len() ==> #[trigger] after.edges[targets[k] as int]
                == seq![mesh.edges[targets[k] as int][0], (n + k) as usize]
            &&& forall|k: int| 0 <= k < targets.len() ==> #[trigger] after.edges[m + k]
                == seq![(n + k) as usize, mesh.edges[targets[k] as int][1]]
            &&& forall|e: int| 0 <= e < m && !targets.contains(e as usize) ==> #[trigger] after.edges[e] == mesh.edges[e]
        }),
    decreases targets.len(),
{
    let n = mesh.vertices.len();
    let m = mesh.edges.len();
    let after = subdivided(mesh, targets, points);
    if targets.len() == 0 {
        assert(mesh.vertices + points.take(0) =~= mesh.vertices);
    } else {
        let last = targets.len() - 1;
        let front = targets.drop_last();
        assert forall|k: int| 0 <= k < front.len() implies #[trigger] front[k] < mesh.edges.len() by {
            assert(front[k] == targets[k]);
        }
        assert forall|j: int, k: int| 0 <= j < k < front.len() implies front[j] != front[k] by {
            assert(front[j] == targets[j] && front[k] == targets[k]);
        }
        lemma_subdivided_shape(mesh, front, points);
        lemma_subdivided(mesh, front, points);
        let t = targets[last];
        assert(!front.contains(t)) by {
            if front.contains(t) {
                let k = choose|k: int| 0 <= k < front.len() && front[k] == t;
                assert(targets[k] == t);
            }
        }
        lemma_subdivided_edge(mesh, front, points, t as int);
        let prev = subdivided(mesh, front, points);
        assert(mesh.edges[t as int].len() == 2);
        let (a, b) = (mesh.edges[t as int][0], mesh.edges[t as int][1]);
        assert(a < n);
        assert(after == split_edge(prev, t as int, points[last]));
        assert(after.vertices =~= mesh.vertices + points.take(targets.len() as int)) by {
            assert(prev.vertices == mesh.vertices + points.take(last));
        }
        assert forall|v: int| 0 <= v < n implies #[trigger] after.vertex_layers[v] == mesh.vertex_layers[v] by {
            assert(after.vertex_layers[v] == prev.vertex_layers[v]);
        }
        assert forall|k: int| 0 <= k < targets.len() implies #[trigger] after.vertex_layers[n + k]
            == mesh.vertex_layers[mesh.edges[targets[k] as int][0] as int] by {
            if k < last {
                assert(front[k] == targets[k]);
                assert(after.vertex_layers[n + k] == prev.vertex_layers[n + k]);
            } else {
                assert(after.vertex_layers[n + k] == prev.vertex_layers[a as int]);
                assert(prev.vertex_layers[a as int] == mesh.vertex_layers[a as int]);
            }
        }
        assert forall|k: int| 0 <= k < targets.len() implies #[trigger] after.edges[targets[k] as int]
            == seq![mesh.edges[targets[k] as int][0], (n + k) as usize] by {
            if k < last {
                assert(front[k] == targets[k]);
                assert(targets[k] != t);
                assert(after.edges[targets[k] as int] == prev.edges[front[k] as int]);
            }
        }
        assert forall|k: int| 0 <= k < targets.len() implies #[trigger] after.edges[m + k]
            == seq![(n + k) as usize, mesh.edges[targets[k] as int][1]] by {
            if k < last {
                assert(front[k] == targets[k]);
                assert(after.edges[m + k] == prev.edges[m + k]);
            }
        }
        assert forall|e: int| 0 <= e < m && !targets.contains(e as usize) implies #[trigger] after.edges[e] == mesh.edges[e] by {
            assert(e != t);
            if front.contains(e as usize) {
                let k = choose|k: int| 0 <= k < front.len() && front[k] == e as usize;
                assert(targets[k] == e as usize);
            }
            assert(after.edges[e] == prev.edges[e]);
        }
    }
}

/// Subdividing splits the `k`-th target edge `a`-`b` (the edges whose ends are both in
/// `list`, in order) at a new vertex `n + k` placed at `points[k]` on the layer of `a`:
/// the edge becomes `a`-`(n + k)` and a new edge `(n + k)`-`b` follows the old edges;
/// every other vertex, layer, edge and image stays.
pub proof fn lemma_subdivide_shape(mesh: MeshView, list: Seq<usize>, points: Seq<Point>)
    requires
        mesh.well_formed(),
        mesh.edges.len() <= usize::MAX,
        points.len() == target_edges(mesh.edges, list).len(),
        mesh.vertices.len() + points.len() <= usize::MAX,
    ensures
        ({
            let targets = target_edges(mesh.edges, list);
            let after = subdivided(mesh, targets, points);
            let n = mesh.vertices.len();
            let m = mesh.edges.len();
            &&& forall|e: int| 0 <= e < m ==> (targets.contains(e as usize) <==> #[trigger] edge_in(mesh.edges, list, e))
            &&& after.vertices == mesh.vertices + points
            &&& after.layers == mesh.layers
            &&& after.images == mesh.images
            &&& forall|v: int| 0 <= v < n ==> #[trigger] after.vertex_layers[v] == mesh.vertex_layers[v]
            &&& forall|k: int| 0 <= k < targets.len() ==> #[trigger] after.vertex_layers[n + k]
                == mesh.vertex_layers[mesh.edges[targets[k] as int][0] as int]
            &&& after.edges.len() == m + targets.len()
            &&& forall|k: int| 0 <= k < targets.len() ==> #[trigger] after.edges[targets[k] as int]
                == seq![mesh.edges[targets[k] as int][0], (n + k) as usize]
            &&& forall|k: int| 0 <= k < targets.len() ==> #[trigger] after.edges[m + k]
                == seq![(n + k) as usize, mesh.edges[targets[k] as int][1]]
            &&& forall|e: int| 0 <= e < m && !targets.contains(e as usize) ==> #[trigger] after.edges[e] == mesh.edges[e]
        }),
{
    let targets = target_edges(mesh.edges, list);
    lemma_target_edges(mesh.edges, list);
    lemma_target_edges_increase(mesh.edges, list);
    lemma_subdivided_shape(mesh, targets, points);
    assert(points.take(targets.len() as int) =~= points);
    lemma_target_edges_members(mesh.edges, list);
}

/// Whether edge `e` of `edges` has both ends in `list`.
pub open spec fn edge_in(edges: Seq<Seq<usize>>, list: Seq<usize>, e: int) -> bool {
    list.contains(edges[e][0]) && list.contains(edges[e][1])
}

proof fn lemma_target_edges_members(edges: Seq<Seq<usize>>, list: Seq<usize>)
    requires
        edges.len() <= usize::MAX,
    ensures
        forall|e: int| 0 <= e < edges.len() ==> (target_edges(edges, list).contains(e as usize) <==> #[trigger] edge_in(edges, list, e)),
    decreases edges.len(),
{
    if edges.len() > 0 {
        let rest = edges.drop_last();
        lemma_target_edges_members(rest, list);
        lemma_target_edges(rest, list);
        let (now, was) = (target_edges(edges, list), target_edges(rest, list));
        let top = (edges.len() - 1) as usize;
        let last = edges.last();
        assert forall|e: int| 0 <= e < edges.len() implies (now.contains(e as usize) <==> #[trigger] edge_in(edges, list, e)) by {
            if e < rest.len() {
                assert(edges[e] == rest[e]);
                assert(edge_in(rest, list, e) == edge_in(edges, list, e));
                assert(was.contains(e as usize) <==> edge_in(rest, list, e));
                if edge_in(edges, list, edges.len() - 1) {
                    assert(now == was.push(top));
                    if now.contains(e as usize) && !was.contains(e as usize) {
                        let j = choose|j: int| 0 <= j < now.len() && now[j] == e as usize;
                        assert(j == was.len());
                    }
                    if was.contains(e as usize) {
                        let j = choose|j: int| 0 <= j < was.len() && was[j] == e as usize;
                        assert(now[j] == e as usize);
                    }
                } else {
                    assert(now == was);
                }
            } else {
                assert(edges[e] == last);
                if edge_in(edges, list, edges.len() - 1) {
                    assert(now == was.push(top));
                    assert(now[was.len() as int] == top);
                } else {
                    assert(now == was);
                    if was.contains(e as usize) {
                        let j = choose|j: int| 0 <= j < was.len() && was[j] == e as usize;
                        assert(was[j] < rest.len());
                    }
                }
            }
        }
    }
}

/// `key` with `mid` added when it holds both `a` and `b`.
fn add_midpoint(key: &mut Vec<usize>, a: usize, b: usize, mid: usize)
    ensures
        final(key)@ == key_with_midpoint(old(key)@, a, b, mid),
{
    if listed(key.as_slice(), a) && listed(key.as_slice(), b) {
        key.push(mid);
    }
}

impl Mesh {
    /// The positions of the edges whose ends are both among `vertices`, in increasing
    /// order: the edges that `subdivide` splits.
    pub fn subdivision_targets(&self, vertices: &[usize]) -> (targets: Vec<usize>)
        ensures
            targets@ == target_edges(self@.edges, vertices@),
    {
        let ghost edges = self@.edges;
        let mut targets: Vec<usize> = Vec::new();
        let mut i: usize = 0;
        while i < self.edges.len()
            invariant
                i <= self.edges@.len(),
                edges == self@.edges,
                targets@ == target_edges(edges.take(i as int), vertices@),
            decreases self.edges@.len() - i,
        {
            let e = self.edges[i];
            assert(edges[i as int] == e@);
            if listed(vertices, e[0]) && listed(vertices, e[1]) {
                targets.push(i);
            }
            proof {
                assert(edges.take(i + 1).drop_last() =~= edges.take(i as int));
                assert(edges.take(i + 1).last() == e@);
            }
            i = i + 1;
        }
        assert(edges.take(edges.len() as int) =~= edges);
        targets
    }

    /// Splits edge `index` at a new vertex at `pos` (see `split_edge`).
    fn split_at(&mut self, index: usize, pos: Point)
        requires
            old(self)@.well_formed(),
            index < old(self).edges@.len(),
            old(self).vertices@.len() < usize::MAX,
        ensures
            final(self)@ == split_edge(old(self)@, index as int, pos),
    {
        let ghost before = self@;
        let edge = self.edges[index];
        let (a, b) = (edge[0], edge[1]);
        assert(before.edges[index as int] == edge@);
        assert(before.edges[index as int].len() == 2);
        assert(a < before.vertices.len());
        assert(self@.vertex_layers.len() == self.vertex_layers@.len());
        let mid = self.vertices.len();
        let layer = self.vertex_layers[a];
        let ghost (pv, pl, pe) = (self.vertices@, self.vertex_layers@, self.edges@);
        self.vertices.push(pos);
        self.vertex_layers.push(layer);
        self.edges.set(index, [a, mid]);
        let ghost pe2 = self.edges@;
        self.edges.push([mid, b]);
        proof {
            assert(views(pv.push(pos)) =~= views(pv).push(pos));
            assert(views(pl.push(layer)) =~= views(pl).push(layer));
            assert(views(self.edges@) =~= before.edges.update(index as int, seq![a, mid]).push(seq![mid, b]));
        }
        let mut h: usize = 0;
        while h < self.holes.len()
            invariant
                h <= self.holes@.len() == before.holes.len(),
                self@ == (MeshView {
                    holes: self@.holes,
                    colors: before.colors,
                    ..split_edge(before, index as int, pos)
                }),
                forall|j: int| 0 <= j < h ==> #[trigger] self@.holes[j] == key_with_midpoint(before.holes[j], a, b, mid),
                forall|j: int| h <= j < self@.holes.len() ==> #[trigger] self@.holes[j] == before.holes[j],
            decreases self.holes@.len() - h,
        {
            let ghost prior = self@.holes;
            assert(self@.holes[h as int] == self.holes@[h as int]@);
            let mut key: Vec<usize> = Vec::new();
            self.holes.set_and_swap(h, &mut key);
            assert(key@ == before.holes[h as int]);
            add_midpoint(&mut key, a, b, mid);
            self.holes.set_and_swap(h, &mut key);
            proof {
                assert(self@.holes =~= prior.update(h as int, key_with_midpoint(before.holes[h as int], a, b, mid)));
            }
            h = h + 1;
        }
        proof {
            assert(self@.holes =~= split_edge(before, index as int, pos).holes);
        }
        let mut c: usize = 0;
        while c < self.colors.len()
            invariant
                c <= self.colors@.len() == before.colors.len(),
                self@ == (MeshView {
                    colors: self@.colors,
                    ..split_edge(before, index as int, pos)
                }),
                forall|j: int| 0 <= j < c ==> #[trigger] self@.colors[j] == (key_with_midpoint(before.colors[j].0, a, b, mid), before.colors[j].1),
                forall|j: int| c <= j < self@.colors.len() ==> #[trigger] self@.colors[j] == before.colors[j],
            decreases self.colors@.len() - c,
        {
            let ghost prior = self@.colors;
            assert(self@.colors[c as int] == self.colors@[c as int]@);
            let mut entry: (Vec<usize>, Rgba) = (Vec::new(), Rgba { r: 0, g: 0, b: 0, a: 0 });
            self.colors.set_and_swap(c, &mut entry);
            assert(entry.0@ == before.colors[c as int].0);
            assert(entry.1 == before.colors[c as int].1);
            add_midpoint(&mut entry.0, a, b, mid);
            self.colors.set_and_swap(c, &mut entry);
            proof {
                assert(self@.colors =~= prior.update(c as int, (key_with_midpoint(before.colors[c as int].0, a, b, mid), before.colors[c as int].1)));
            }
            c = c + 1;
        }
        proof {
            assert(self@ =~= split_edge(before, index as int, pos));
        }
    }

    /// Splits each edge whose ends are both among `vertices` at a new vertex, the k-th
    /// such edge (see `subdivision_targets`) at `midpoints[k]`. Returns the indices of the
    /// new vertices.
    pub fn subdivide(&mut self, vertices: &[usize], midpoints: &[Point]) -> (added: Vec<usize>)
        requires
            old(self)@.well_formed(),
            midpoints@.len() == target_edges(old(self)@.edges, vertices@).len(),
            old(self).vertices@.len() + midpoints@.len() <= usize::MAX,
        ensures
            final(self)@ == subdivided(old(self)@, target_edges(old(self)@.edges, vertices@), midpoints@),
            final(self)@.well_formed(),
            added@ == index_range(old(self)@.vertices.len() as int, midpoints@.len() as int),
    {
        let ghost before = self@;
        let targets = self.subdivision_targets(vertices);
        proof {
            lemma_target_edges(before.edges, vertices@);
        }
        let offset = self.vertices.len();
        let mut added: Vec<usize> = Vec::new();
        let mut k: usize = 0;
        while k < targets.len()
            invariant
                k <= targets@.len() == midpoints@.len(),
                targets@ == target_edges(before.edges, vertices@),
                forall|j: int| 0 <= j < targets@.len() ==> #[trigger] targets@[j] < before.edges.len(),
                offset == before.vertices.len(),
                offset + midpoints@.len() <= usize::MAX,
                before.well_formed(),
                self@ == subdivided(before, targets@.take(k as int), midpoints@),
                added@ == index_range(offset as int, k as int),
            decreases targets@.len() - k,
        {
            proof {
                lemma_subdivided(before, targets@.take(k as int), midpoints@);
            }
            assert(self.edges@.len() == self@.edges.len() && self.vertices@.len() == self@.vertices.len());
            self.split_at(targets[k], midpoints[k]);
            added.push(offset + k);
            proof {
                assert(targets@.take(k + 1).drop_last() =~= targets@.take(k as int));
                assert(added@ =~= index_range(offset as int, k + 1));
            }
            k = k + 1;
        }
        proof {
            assert(targets@.take(targets@.len() as int) =~= targets@);
            lemma_subdivided(before, targets@, midpoints@);
        }
        added
    }
}

} // verus!

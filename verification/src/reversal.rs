//! Why a decimation undoes one subdivision: once every edge between selected vertices is
//! split, the selected vertices and the new ones alternate along each chain, and the
//! walks of a decimation take exactly the new ones.
use crate::chains::{
    anchor_pass, anchor_walks, evens, is_interior, lemma_unvisited, lemma_unvisited_bound, lemma_walk,
    loop_pass, loop_pieces, no_double, odds, onward, open_pieces, simple_lists, unvisited, walk,
};
use crate::construct::index_range;
use crate::graph::neighbour_list;
use crate::mesh::{MeshView, Point};
use crate::refine::{subdivided, target_edges};
use vstd::prelude::*;

verus! {

/// Each vertex is listed by each of its neighbours.
#[verifier::opaque]
pub open spec fn symmetric(nb: Seq<Seq<usize>>) -> bool {
    forall|x: int, j: int| 0 <= x < nb.len() && 0 <= j < nb[x].len() ==> nb[#[trigger] nb[x][j] as int].contains(x as usize)
}

/// Along every edge between two selected vertices, one end is below `n` and the other
/// is not.
pub open spec fn alternating(nb: Seq<Seq<usize>>, sel: Seq<usize>, n: usize) -> bool {
    forall|x: int, j: int|
        0 <= x < nb.len() && 0 <= j < nb[x].len() && sel.contains(x as usize) && sel.contains(#[trigger] nb[x][j])
            ==> ((x >= n) != (nb[x][j] >= n))
}

proof fn lemma_symmetric(nb: Seq<Seq<usize>>, x: usize, y: usize)
    requires
        symmetric(nb),
        x < nb.len(),
        nb[x as int].contains(y),
    ensures
        nb[y as int].contains(x),
{
    reveal(symmetric);
    let j = choose|j: int| 0 <= j < nb[x as int].len() && nb[x as int][j] == y;
    assert(nb[nb[x as int][j] as int].contains(x));
}

/// Every vertex from `n` on is interior to the selection.
pub open spec fn upper_interior(nb: Seq<Seq<usize>>, sel: Seq<usize>, n: usize) -> bool {
    forall|x: usize| n <= x < nb.len() ==> #[trigger] is_interior(nb, sel, x)
}

/// The selection lists the vertices below `n` first, at the positions below `p`.
pub open spec fn lower_first(sel: Seq<usize>, n: usize, p: int) -> bool {
    &&& 0 <= p <= sel.len()
    &&& forall|i: int| 0 <= i < p ==> #[trigger] sel[i] < n
    &&& forall|i: int| p <= i < sel.len() ==> #[trigger] sel[i] >= n
}

/// No closed loop of four interior vertices passes through a vertex below `n`.
pub open spec fn no_square(nb: Seq<Seq<usize>>, sel: Seq<usize>, n: usize) -> bool {
    forall|v: usize, a: usize, o: usize, b: usize|
        #![trigger nb[v as int].contains(a), nb[a as int].contains(o), nb[o as int].contains(b), nb[b as int].contains(v)]
        v < n && is_interior(nb, sel, v) && is_interior(nb, sel, a) && is_interior(nb, sel, o) && is_interior(nb, sel, b)
            && v != o && a != b && nb[v as int].contains(a) && nb[a as int].contains(o) && nb[o as int].contains(b)
            && nb[b as int].contains(v) ==> false
}

/// The shape of a selection once the edges between its first `p` vertices are split at
/// the vertices from `n` on.
pub open spec fn halving_graph(nb: Seq<Seq<usize>>, sel: Seq<usize>, n: usize, p: int) -> bool {
    &&& walk_graph(nb, sel, n)
    &&& upper_interior(nb, sel, n)
    &&& lower_first(sel, n, p)
    &&& no_square(nb, sel, n)
    &&& n <= nb.len() <= usize::MAX
    &&& forall|i: int| 0 <= i < sel.len() ==> #[trigger] sel[i] < nb.len()
}

/// The facts the walks rest on: lists within the graph, each edge listed at both ends,
/// no interior vertex with one neighbour twice, and selected neighbours on either side
/// of `n`.
pub open spec fn walk_graph(nb: Seq<Seq<usize>>, sel: Seq<usize>, n: usize) -> bool {
    &&& simple_lists(nb)
    &&& symmetric(nb)
    &&& no_double(nb, sel)
    &&& alternating(nb, sel, n)
    &&& nb.len() <= usize::MAX
}

/// The vertex a walk comes from when it enters position `i` of its chain.
pub open spec fn before_step(chain: Seq<usize>, prev: usize, i: int) -> usize {
    if i == 0 { prev } else { chain[i - 1] }
}

/// The vertex a walk goes on to from position `i` of its chain.
pub open spec fn after_step(chain: Seq<usize>, end: usize, i: int) -> usize {
    if i + 1 < chain.len() { chain[i + 1] } else { end }
}

/// Where a walk goes: each step leads on from the vertex it came from, and it stops only
/// at a vertex that is not interior or is visited.
proof fn lemma_walk_steps(nb: Seq<Seq<usize>>, sel: Seq<usize>, visited: Seq<bool>, prev: usize, current: usize, fuel: nat)
    requires
        visited.len() == nb.len(),
        fuel >= unvisited(visited),
    ensures
        ({
            let (chain, end, after) = walk(nb, sel, visited, prev, current, fuel);
            &&& chain.len() == 0 ==> end == current && after == visited
            &&& chain.len() > 0 ==> chain[0] == current
            &&& forall|i: int| 0 <= i < chain.len()
                ==> #[trigger] after_step(chain, end, i) == onward(nb, before_step(chain, prev, i), chain[i])
            &&& !is_interior(nb, sel, end) || after[end as int]
        }),
    decreases fuel,
{
    if !(fuel == 0 || !is_interior(nb, sel, current) || current >= visited.len() || visited[current as int]) {
        let marked = visited.update(current as int, true);
        let next = onward(nb, prev, current);
        lemma_unvisited(visited, current as int);
        lemma_walk_steps(nb, sel, marked, current, next, (fuel - 1) as nat);
        let (rest, end, after) = walk(nb, sel, marked, current, next, (fuel - 1) as nat);
        let chain = seq![current] + rest;
        assert(walk(nb, sel, visited, prev, current, fuel) == (chain, end, after));
        assert forall|i: int| 0 <= i < chain.len()
            implies #[trigger] after_step(chain, end, i) == onward(nb, before_step(chain, prev, i), chain[i]) by {
            if i == 0 {
                if rest.len() > 0 {
                    assert(after_step(chain, end, 0) == rest[0]);
                }
            } else {
                assert(chain[i] == rest[i - 1]);
                assert(after_step(chain, end, i) == after_step(rest, end, i - 1));
                assert(before_step(chain, prev, i) == before_step(rest, current, i - 1));
            }
        }
    } else if fuel == 0 && current < visited.len() && !visited[current as int] {
        lemma_unvisited(visited, current as int);
    }
}

/// An interior vertex entered from one neighbour leaves by the other one.
proof fn lemma_onward(nb: Seq<Seq<usize>>, sel: Seq<usize>, q: usize, x: usize)
    requires
        is_interior(nb, sel, x),
        no_double(nb, sel),
        nb[x as int].contains(q),
    ensures
        onward(nb, q, x) != q,
        nb[x as int].contains(onward(nb, q, x)),
        forall|j: int| 0 <= j < nb[x as int].len() ==> #[trigger] nb[x as int][j] == q || nb[x as int][j] == onward(nb, q, x),
{
    assert(nb[x as int][0] != nb[x as int][1]);
    assert(nb[x as int].contains(nb[x as int][0]));
    assert(nb[x as int].contains(nb[x as int][1]));
}

/// Facts of a walk: each vertex of its chain lists the vertex the walk came from, and
/// the next one, and the vertices of the chain alternate about `n`.
proof fn lemma_walk_links(nb: Seq<Seq<usize>>, sel: Seq<usize>, n: usize, visited: Seq<bool>, prev: usize,
    current: usize, fuel: nat)
    requires
        walk_graph(nb, sel, n),
        visited.len() == nb.len(),
        fuel >= unvisited(visited),
        is_interior(nb, sel, current) && !visited[current as int] ==> nb[current as int].contains(prev),
    ensures
        ({
            let (chain, end, after) = walk(nb, sel, visited, prev, current, fuel);
            &&& forall|i: int| 0 <= i < chain.len() ==> nb[chain[i] as int].contains(#[trigger] before_step(chain, prev, i))
            &&& forall|i: int| 0 <= i < chain.len() ==> nb[chain[i] as int].contains(#[trigger] after_step(chain, end, i))
            &&& forall|i: int| 0 <= i < chain.len() ==> ((#[trigger] chain[i] >= n) == ((chain[0] >= n) != (i % 2 == 1)))
        }),
{
    lemma_walk(nb, sel, visited, prev, current, fuel);
    lemma_walk_steps(nb, sel, visited, prev, current, fuel);
    let (chain, end, after) = walk(nb, sel, visited, prev, current, fuel);
    if chain.len() > 0 {
        assert(chain[0] == current);
        assert(!visited[chain[0] as int]);
        assert(is_interior(nb, sel, chain[0]));
    }
    assert forall|i: int| 0 <= i < chain.len() implies nb[chain[i] as int].contains(#[trigger] before_step(chain, prev, i)) by {
        lemma_links_at(nb, sel, n, chain, prev, end, i);
    }
    assert forall|i: int| 0 <= i < chain.len() implies nb[chain[i] as int].contains(#[trigger] after_step(chain, end, i)) by {
        lemma_links_at(nb, sel, n, chain, prev, end, i);
    }
    assert forall|i: int| 0 <= i < chain.len() implies ((#[trigger] chain[i] >= n) == ((chain[0] >= n) != (i % 2 == 1))) by {
        lemma_parity_at(nb, sel, n, chain, prev, end, i);
    }
}

proof fn lemma_links_at(nb: Seq<Seq<usize>>, sel: Seq<usize>, n: usize, chain: Seq<usize>, prev: usize, end: usize, i: int)
    requires
        walk_graph(nb, sel, n),
        0 <= i < chain.len(),
        forall|k: int| 0 <= k < chain.len() ==> is_interior(nb, sel, #[trigger] chain[k]),
        nb[chain[0] as int].contains(prev),
        forall|k: int| 0 <= k < chain.len()
            ==> #[trigger] after_step(chain, end, k) == onward(nb, before_step(chain, prev, k), chain[k]),
    ensures
        nb[chain[i] as int].contains(before_step(chain, prev, i)),
        nb[chain[i] as int].contains(after_step(chain, end, i)),
    decreases i,
{
    if i > 0 {
        lemma_links_at(nb, sel, n, chain, prev, end, i - 1);
        assert(after_step(chain, end, i - 1) == chain[i]);
        let x = chain[i - 1];
        assert(is_interior(nb, sel, x));
        lemma_symmetric(nb, x, chain[i]);
    }
    assert(is_interior(nb, sel, chain[i]));
    lemma_onward(nb, sel, before_step(chain, prev, i), chain[i]);
    assert(after_step(chain, end, i) == onward(nb, before_step(chain, prev, i), chain[i]));
}

proof fn lemma_parity_at(nb: Seq<Seq<usize>>, sel: Seq<usize>, n: usize, chain: Seq<usize>, prev: usize, end: usize, i: int)
    requires
        walk_graph(nb, sel, n),
        0 <= i < chain.len(),
        forall|k: int| 0 <= k < chain.len() ==> is_interior(nb, sel, #[trigger] chain[k]),
        forall|k: int| 0 <= k < chain.len() ==> nb[chain[k] as int].contains(#[trigger] after_step(chain, end, k)),
    ensures
        (chain[i] >= n) == ((chain[0] >= n) != (i % 2 == 1)),
    decreases i,
{
    if i > 0 {
        lemma_parity_at(nb, sel, n, chain, prev, end, i - 1);
        let x = chain[i - 1];
        assert(after_step(chain, end, i - 1) == chain[i]);
        assert(nb[x as int].contains(chain[i]));
        let j = choose|j: int| 0 <= j < nb[x as int].len() && nb[x as int][j] == chain[i];
        assert(is_interior(nb, sel, x));
        assert(is_interior(nb, sel, chain[i]));
        assert(x < nb.len());
        assert(sel.contains(nb[x as int][j]));
    }
}

} // verus!

verus! {

/// Every visited interior vertex has its interior neighbours visited.
#[verifier::opaque]
pub open spec fn closed(nb: Seq<Seq<usize>>, sel: Seq<usize>, visited: Seq<bool>) -> bool {
    forall|x: usize, j: int|
        #![trigger visited[x as int], nb[x as int][j]]
        x < visited.len() && visited[x as int] && is_interior(nb, sel, x) && 0 <= j < nb[x as int].len()
            && is_interior(nb, sel, nb[x as int][j]) ==> visited[nb[x as int][j] as int]
}

/// The selected vertices before position `i` that are not interior have their interior
/// neighbours visited.
pub open spec fn anchors_done(nb: Seq<Seq<usize>>, sel: Seq<usize>, visited: Seq<bool>, i: int) -> bool {
    forall|q: int, j: int|
        0 <= q < i && q < sel.len() && !is_interior(nb, sel, sel[q]) && sel[q] < nb.len() && 0 <= j < nb[sel[q] as int].len()
            && is_interior(nb, sel, #[trigger] nb[sel[q] as int][j]) ==> visited[nb[sel[q] as int][j] as int]
}

/// The interior selected vertices before position `i` are visited.
pub open spec fn loops_done(nb: Seq<Seq<usize>>, sel: Seq<usize>, visited: Seq<bool>, i: int) -> bool {
    forall|q: int| 0 <= q < i && q < sel.len() && is_interior(nb, sel, #[trigger] sel[q]) ==> visited[sel[q] as int]
}

/// Each interior vertex not visited yet has only interior neighbours not visited yet.
#[verifier::opaque]
pub open spec fn isolated(nb: Seq<Seq<usize>>, sel: Seq<usize>, visited: Seq<bool>) -> bool {
    forall|x: usize, j: int|
        #![trigger visited[x as int], nb[x as int][j]]
        x < visited.len() && !visited[x as int] && is_interior(nb, sel, x) && 0 <= j < nb[x as int].len()
            ==> is_interior(nb, sel, nb[x as int][j]) && !visited[nb[x as int][j] as int]
}

proof fn lemma_closed_at(nb: Seq<Seq<usize>>, sel: Seq<usize>, visited: Seq<bool>, x: usize, j: int)
    requires
        closed(nb, sel, visited),
        x < visited.len(),
        visited[x as int],
        is_interior(nb, sel, x),
        0 <= j < nb[x as int].len(),
        is_interior(nb, sel, nb[x as int][j]),
    ensures
        visited[nb[x as int][j] as int],
{
    reveal(closed);
}

proof fn lemma_isolated_at(nb: Seq<Seq<usize>>, sel: Seq<usize>, visited: Seq<bool>, x: usize, j: int)
    requires
        isolated(nb, sel, visited),
        x < visited.len(),
        !visited[x as int],
        is_interior(nb, sel, x),
        0 <= j < nb[x as int].len(),
    ensures
        is_interior(nb, sel, nb[x as int][j]),
        !visited[nb[x as int][j] as int],
{
    reveal(isolated);
}

proof fn lemma_isolated(nb: Seq<Seq<usize>>, sel: Seq<usize>, visited: Seq<bool>)
    requires
        simple_lists(nb),
        symmetric(nb),
        nb.len() <= usize::MAX,
        visited.len() == nb.len(),
        closed(nb, sel, visited),
        anchors_done(nb, sel, visited, sel.len() as int),
    ensures
        isolated(nb, sel, visited),
{
    reveal(isolated);
    assert forall|x: usize, j: int|
        x < visited.len() && !visited[x as int] && is_interior(nb, sel, x) && 0 <= j < nb[x as int].len()
        implies is_interior(nb, sel, nb[x as int][j]) && !visited[nb[x as int][j] as int] by {
        let y = nb[x as int][j];
        assert(nb[x as int].len() == 2);
        assert(sel.contains(y));
        assert(y < nb.len());
        assert(nb[x as int].contains(y));
        lemma_symmetric(nb, x, y);
        let k = choose|k: int| 0 <= k < nb[y as int].len() && nb[y as int][k] == x;
        if !is_interior(nb, sel, y) {
            let q = choose|q: int| 0 <= q < sel.len() && sel[q] == y;
            assert(is_interior(nb, sel, nb[sel[q] as int][k]));
            assert(visited[nb[sel[q] as int][k] as int]);
        } else if visited[y as int] {
            lemma_closed_at(nb, sel, visited, y, k);
        }
    }
}

/// A walk that starts where it is listed by the vertex it comes from, and whose start
/// is not interior or ends up visited, keeps the visited vertices closed.
proof fn lemma_walk_closed(nb: Seq<Seq<usize>>, sel: Seq<usize>, n: usize, visited: Seq<bool>, prev: usize,
    current: usize, fuel: nat)
    requires
        walk_graph(nb, sel, n),
        visited.len() == nb.len(),
        fuel >= unvisited(visited),
        closed(nb, sel, visited),
        is_interior(nb, sel, current) && !visited[current as int] ==> nb[current as int].contains(prev),
        ({
            let after = walk(nb, sel, visited, prev, current, fuel).2;
            !is_interior(nb, sel, prev) || after[prev as int]
        }),
    ensures
        closed(nb, sel, walk(nb, sel, visited, prev, current, fuel).2),
{
    lemma_walk(nb, sel, visited, prev, current, fuel);
    lemma_walk_steps(nb, sel, visited, prev, current, fuel);
    lemma_walk_links(nb, sel, n, visited, prev, current, fuel);
    let (chain, end, after) = walk(nb, sel, visited, prev, current, fuel);
    reveal(closed);
    assert forall|x: usize, j: int|
        x < after.len() && after[x as int] && is_interior(nb, sel, x) && 0 <= j < nb[x as int].len()
            && is_interior(nb, sel, nb[x as int][j]) implies after[nb[x as int][j] as int] by {
        let y = nb[x as int][j];
        if visited[x as int] {
            lemma_closed_at(nb, sel, visited, x, j);
        } else {
            assert(chain.contains(x));
            let i = choose|i: int| 0 <= i < chain.len() && chain[i] == x;
            let pred = before_step(chain, prev, i);
            assert(nb[chain[i] as int].contains(pred));
            lemma_onward(nb, sel, pred, x);
            assert(after_step(chain, end, i) == onward(nb, pred, x));
            if y == pred {
                if i > 0 {
                    assert(after[chain[i - 1] as int]);
                }
            } else {
                if i + 1 < chain.len() {
                    assert(after[chain[i + 1] as int]);
                }
            }
        }
    }
}

/// A walk from a vertex into one of its neighbours visits that neighbour if it is
/// interior.
proof fn lemma_walk_enters(nb: Seq<Seq<usize>>, sel: Seq<usize>, visited: Seq<bool>, prev: usize, current: usize, fuel: nat)
    requires
        visited.len() == nb.len() <= usize::MAX,
        fuel >= unvisited(visited),
    ensures
        is_interior(nb, sel, current) ==> walk(nb, sel, visited, prev, current, fuel).2[current as int],
{
    lemma_walk(nb, sel, visited, prev, current, fuel);
    lemma_walk_steps(nb, sel, visited, prev, current, fuel);
    let (chain, end, after) = walk(nb, sel, visited, prev, current, fuel);
    if chain.len() > 0 {
        assert(after[chain[0] as int]);
    }
}

/// The chain of a walk that stops at one of its own vertices, the one its last vertex
/// leads to: with every vertex of degree two, it is the first one, and the last vertex
/// is the one the walk came from at the start.
proof fn lemma_closing(nb: Seq<Seq<usize>>, sel: Seq<usize>, n: usize, chain: Seq<usize>, q: usize, end: usize, j: int)
    requires
        walk_graph(nb, sel, n),
        0 <= j < chain.len(),
        chain[j] == end,
        forall|a: int, b: int| 0 <= a < b < chain.len() ==> chain[a] != chain[b],
        forall|i: int| 0 <= i < chain.len() ==> is_interior(nb, sel, #[trigger] chain[i]),
        forall|i: int| 0 <= i < chain.len() ==> nb[chain[i] as int].contains(#[trigger] before_step(chain, q, i)),
        forall|i: int| 0 <= i < chain.len()
            ==> #[trigger] after_step(chain, end, i) == onward(nb, before_step(chain, q, i), chain[i]),
        nb[end as int].contains(chain.last()),
    ensures
        j == 0,
        chain.len() >= 2,
        chain.last() == q,
{
    let last = chain.len() - 1;
    let x = chain[last];
    assert(is_interior(nb, sel, end));
    assert(nb[chain[j] as int].contains(before_step(chain, q, j)));
    lemma_onward(nb, sel, before_step(chain, q, j), end);
    let kx = choose|k: int| 0 <= k < nb[end as int].len() && nb[end as int][k] == x;
    assert(nb[end as int][kx] == before_step(chain, q, j) || nb[end as int][kx] == onward(nb, before_step(chain, q, j), end));
    assert(after_step(chain, end, j) == onward(nb, before_step(chain, q, j), chain[j]));
    if j == last {
        assert(x == end);
        assert(sel.contains(x));
        assert(nb[x as int].contains(x));
        let k = choose|k: int| 0 <= k < nb[x as int].len() && nb[x as int][k] == x;
        assert(x < nb.len());
        assert(sel.contains(nb[x as int][k]));
        assert(false);
    } else {
        assert(after_step(chain, end, j) == chain[j + 1]);
        if x == chain[j + 1] {
            assert(last == j + 1);
            assert(before_step(chain, q, last) == chain[j]);
            assert(nb[chain[last] as int].contains(before_step(chain, q, last)));
            lemma_onward(nb, sel, before_step(chain, q, last), x);
            assert(after_step(chain, end, last) == onward(nb, before_step(chain, q, last), chain[last]));
            assert(false);
        } else {
            assert(x == before_step(chain, q, j));
            if j > 0 {
                assert(x == chain[j - 1]);
                assert(false);
            }
        }
    }
}

/// A walk around a closed loop: entering an interior vertex not visited yet from its
/// first neighbour, with every vertex not visited yet isolated, it goes all the way
/// round and stops back where it started, having come last through that neighbour.
proof fn lemma_cycle(nb: Seq<Seq<usize>>, sel: Seq<usize>, n: usize, visited: Seq<bool>, v: usize, fuel: nat)
    requires
        walk_graph(nb, sel, n),
        visited.len() == nb.len(),
        fuel >= unvisited(visited),
        isolated(nb, sel, visited),
        is_interior(nb, sel, v),
        !visited[v as int],
    ensures
        ({
            let (chain, end, after) = walk(nb, sel, visited, nb[v as int][0], v, fuel);
            &&& chain.len() >= 2
            &&& chain[0] == v
            &&& chain.last() == nb[v as int][0]
            &&& end == v
            &&& after[nb[v as int][0] as int]
        }),
{
    let q = nb[v as int][0];
    assert(nb[v as int].contains(q));
    let (chain, end, after) = walk(nb, sel, visited, q, v, fuel);
    assert(chain.len() > 0 && chain[0] == v) by {
        lemma_walk_steps(nb, sel, visited, q, v, fuel);
    }
    let last = chain.len() - 1;
    let x = chain[last];
    assert(forall|a: int, b: int| 0 <= a < b < chain.len() ==> chain[a] != chain[b]) by {
        lemma_walk(nb, sel, visited, q, v, fuel);
    }
    assert(forall|i: int| 0 <= i < chain.len() ==> is_interior(nb, sel, #[trigger] chain[i])) by {
        lemma_walk(nb, sel, visited, q, v, fuel);
    }
    assert(forall|i: int| 0 <= i < chain.len() ==> nb[chain[i] as int].contains(#[trigger] before_step(chain, q, i))) by {
        lemma_walk_links(nb, sel, n, visited, q, v, fuel);
    }
    assert(nb[x as int].contains(end)) by {
        lemma_walk_links(nb, sel, n, visited, q, v, fuel);
        assert(after_step(chain, end, last) == end);
    }
    assert(forall|i: int| 0 <= i < chain.len()
        ==> #[trigger] after_step(chain, end, i) == onward(nb, before_step(chain, q, i), chain[i])) by {
        lemma_walk_steps(nb, sel, visited, q, v, fuel);
    }
    assert(!visited[x as int]) by {
        lemma_walk(nb, sel, visited, q, v, fuel);
    }
    assert(is_interior(nb, sel, end) && !visited[end as int]) by {
        let jx = choose|j: int| 0 <= j < nb[x as int].len() && nb[x as int][j] == end;
        assert(is_interior(nb, sel, x));
        lemma_isolated_at(nb, sel, visited, x, jx);
    }
    assert(after[end as int]) by {
        lemma_walk_steps(nb, sel, visited, q, v, fuel);
    }
    assert(chain.contains(end)) by {
        lemma_walk(nb, sel, visited, q, v, fuel);
    }
    let j = choose|j: int| 0 <= j < chain.len() && chain[j] == end;
    assert(x < nb.len());
    lemma_symmetric(nb, x, end);
    lemma_closing(nb, sel, n, chain, q, end, j);
    assert(after[chain[last] as int]) by {
        lemma_walk(nb, sel, visited, q, v, fuel);
    }
}

} // verus!

verus! {

/// Vertex `x` stands in one of the chains.
pub open spec fn stands_in(chains: Seq<(Seq<usize>, usize, usize)>, x: usize) -> bool {
    exists|c: int, i: int| 0 <= c < chains.len() && 0 <= i < chains[c].0.len() && chains[c].0[i] == x
}

/// Chains of interior vertices with the vertices from `n` on at the even positions.
pub open spec fn open_shape(nb: Seq<Seq<usize>>, sel: Seq<usize>, n: usize, chains: Seq<(Seq<usize>, usize, usize)>) -> bool {
    forall|c: int, i: int| 0 <= c < chains.len() && 0 <= i < chains[c].0.len()
        ==> is_interior(nb, sel, #[trigger] chains[c].0[i]) && ((chains[c].0[i] >= n) == (i % 2 == 0))
}

/// Chains of interior vertices, each empty or of more than four, with the vertices from
/// `n` on at the odd positions.
pub open spec fn loop_shape(nb: Seq<Seq<usize>>, sel: Seq<usize>, n: usize, chains: Seq<(Seq<usize>, usize, usize)>) -> bool {
    &&& forall|c: int| 0 <= c < chains.len() ==> #[trigger] chains[c].0.len() == 0 || chains[c].0.len() > 4
    &&& forall|c: int, i: int| 0 <= c < chains.len() && 0 <= i < chains[c].0.len()
        ==> is_interior(nb, sel, #[trigger] chains[c].0[i]) && ((chains[c].0[i] >= n) == (i % 2 == 1))
}

/// The walks from a vertex below `n` that is not interior, into its neighbours from
/// position `k` on.
proof fn lemma_anchor_walks(nb: Seq<Seq<usize>>, sel: Seq<usize>, n: usize, p: int, visited: Seq<bool>, a: usize, k: nat)
    requires
        halving_graph(nb, sel, n, p),
        visited.len() == nb.len(),
        closed(nb, sel, visited),
        a < n,
        a < nb.len(),
        sel.contains(a),
        !is_interior(nb, sel, a),
        k <= nb[a as int].len(),
    ensures
        ({
            let (chains, after) = anchor_walks(nb, sel, visited, a, k, nb.len() as nat);
            &&& after.len() == visited.len()
            &&& closed(nb, sel, after)
            &&& forall|j: int| k <= j < nb[a as int].len() && is_interior(nb, sel, #[trigger] nb[a as int][j])
                ==> after[nb[a as int][j] as int]
            &&& forall|x: int| 0 <= x < visited.len() && visited[x] ==> #[trigger] after[x]
            &&& forall|x: usize| x < visited.len() && #[trigger] after[x as int] ==> visited[x as int] || stands_in(chains, x)
            &&& open_shape(nb, sel, n, chains)
        }),
    decreases nb[a as int].len() - k,
{
    let fuel = nb.len() as nat;
    if k < nb[a as int].len() {
        let q = nb[a as int][k as int];
        assert(nb[a as int].contains(q));
        assert(fuel >= unvisited(visited)) by {
            lemma_unvisited_bound(visited);
        }
        let (chain, end, mid) = walk(nb, sel, visited, a, q, fuel);
        assert(is_interior(nb, sel, q) && !visited[q as int] ==> nb[q as int].contains(a)) by {
            lemma_symmetric(nb, a, q);
        }
        assert(mid.len() == visited.len() && closed(nb, sel, mid)) by {
            lemma_walk(nb, sel, visited, a, q, fuel);
            lemma_walk_closed(nb, sel, n, visited, a, q, fuel);
        }
        lemma_anchor_walks(nb, sel, n, p, mid, a, k + 1);
        let (rest, last) = anchor_walks(nb, sel, mid, a, k + 1, fuel);
        let chains = seq![(chain, a, end)] + rest;
        assert(anchor_walks(nb, sel, visited, a, k, fuel) == (chains, last));
        assert(is_interior(nb, sel, q) ==> mid[q as int]) by {
            lemma_walk_enters(nb, sel, visited, a, q, fuel);
        }
        assert(forall|x: int| 0 <= x < visited.len() && visited[x] ==> #[trigger] mid[x]) by {
            lemma_walk(nb, sel, visited, a, q, fuel);
        }
        assert(forall|x: usize| x < visited.len() && #[trigger] mid[x as int] ==> visited[x as int] || chain.contains(x)) by {
            lemma_walk(nb, sel, visited, a, q, fuel);
        }
        assert(forall|i: int| 0 <= i < chain.len() ==> is_interior(nb, sel, #[trigger] chain[i])) by {
            lemma_walk(nb, sel, visited, a, q, fuel);
        }
        assert(forall|i: int| 0 <= i < chain.len() ==> ((#[trigger] chain[i] >= n) == (i % 2 == 0))) by {
            lemma_walk_steps(nb, sel, visited, a, q, fuel);
            lemma_walk_links(nb, sel, n, visited, a, q, fuel);
            if chain.len() > 0 {
                assert(chain[0] == q);
                assert(is_interior(nb, sel, chain[0]));
                let j = k as int;
                assert(sel.contains(nb[a as int][j]));
            }
        }
        assert forall|j: int| k <= j < nb[a as int].len() && is_interior(nb, sel, #[trigger] nb[a as int][j])
            implies last[nb[a as int][j] as int] by {
            if j == k {
                assert(mid[q as int]);
            }
        }
        assert forall|x: usize| x < visited.len() && #[trigger] last[x as int] implies visited[x as int] || stands_in(chains, x) by {
            if stands_in(rest, x) {
                let (c, i) = choose|c: int, i: int| 0 <= c < rest.len() && 0 <= i < rest[c].0.len() && rest[c].0[i] == x;
                assert(chains[c + 1] == rest[c]);
            } else if !visited[x as int] {
                assert(mid[x as int]);
                assert(chain.contains(x));
                let i = choose|i: int| 0 <= i < chain.len() && chain[i] == x;
                assert(chains[0].0 == chain);
            }
        }
        assert forall|c: int, i: int| 0 <= c < chains.len() && 0 <= i < chains[c].0.len()
            implies is_interior(nb, sel, #[trigger] chains[c].0[i]) && ((chains[c].0[i] >= n) == (i % 2 == 0)) by {
            if c > 0 {
                assert(chains[c] == rest[c - 1]);
            } else {
                assert(chains[0].0 == chain);
            }
        }
    }
}

} // verus!

verus! {

/// The walks from the selected vertices from position `i` on that are not interior.
proof fn lemma_anchor_pass(nb: Seq<Seq<usize>>, sel: Seq<usize>, n: usize, p: int, visited: Seq<bool>, i: nat)
    requires
        halving_graph(nb, sel, n, p),
        visited.len() == nb.len(),
        closed(nb, sel, visited),
        anchors_done(nb, sel, visited, i as int),
        i <= sel.len(),
    ensures
        ({
            let (chains, after) = anchor_pass(nb, sel, visited, i, nb.len() as nat);
            &&& after.len() == visited.len()
            &&& closed(nb, sel, after)
            &&& anchors_done(nb, sel, after, sel.len() as int)
            &&& forall|x: int| 0 <= x < visited.len() && visited[x] ==> #[trigger] after[x]
            &&& forall|x: usize| x < visited.len() && #[trigger] after[x as int] ==> visited[x as int] || stands_in(chains, x)
            &&& open_shape(nb, sel, n, chains)
        }),
    decreases sel.len() - i,
{
    let fuel = nb.len() as nat;
    if i < sel.len() {
        let v = sel[i as int];
        assert(sel.contains(v));
        assert(v < nb.len());
        let anchor = !is_interior(nb, sel, v) && v < nb.len();
        let (now, mid) = if anchor {
            anchor_walks(nb, sel, visited, v, 0, fuel)
        } else {
            (Seq::<(Seq<usize>, usize, usize)>::empty(), visited)
        };
        if anchor {
            if v >= n {
                assert(is_interior(nb, sel, v));
            }
            lemma_anchor_walks(nb, sel, n, p, visited, v, 0);
        }
        assert(mid.len() == visited.len() && closed(nb, sel, mid));
        assert(forall|x: int| 0 <= x < visited.len() && visited[x] ==> #[trigger] mid[x]);
        assert forall|q: int, j: int|
            0 <= q < i + 1 && q < sel.len() && !is_interior(nb, sel, sel[q]) && sel[q] < nb.len() && 0 <= j < nb[sel[q] as int].len()
                && is_interior(nb, sel, #[trigger] nb[sel[q] as int][j]) implies mid[nb[sel[q] as int][j] as int] by {
            if q < i {
                assert(visited[nb[sel[q] as int][j] as int]);
            }
        }
        lemma_anchor_pass(nb, sel, n, p, mid, i + 1);
        let (rest, last) = anchor_pass(nb, sel, mid, i + 1, fuel);
        let chains = now + rest;
        assert(anchor_pass(nb, sel, visited, i, fuel) == (chains, last));
        assert forall|x: usize| x < visited.len() && #[trigger] last[x as int] implies visited[x as int] || stands_in(chains, x) by {
            if stands_in(rest, x) {
                let (c, k) = choose|c: int, k: int| 0 <= c < rest.len() && 0 <= k < rest[c].0.len() && rest[c].0[k] == x;
                assert(chains[now.len() + c] == rest[c]);
            } else if !visited[x as int] {
                assert(mid[x as int]);
                assert(stands_in(now, x));
                let (c, k) = choose|c: int, k: int| 0 <= c < now.len() && 0 <= k < now[c].0.len() && now[c].0[k] == x;
                assert(chains[c] == now[c]);
            }
        }
        assert forall|c: int, k: int| 0 <= c < chains.len() && 0 <= k < chains[c].0.len()
            implies is_interior(nb, sel, #[trigger] chains[c].0[k]) && ((chains[c].0[k] >= n) == (k % 2 == 0)) by {
            if c < now.len() {
                assert(chains[c] == now[c]);
            } else {
                assert(chains[c] == rest[c - now.len()]);
            }
        }
    } else {
        assert(anchor_pass(nb, sel, visited, i, fuel) == (Seq::<(Seq<usize>, usize, usize)>::empty(), visited));
    }
}

} // verus!

verus! {

/// One walk of the loop pass, from an interior vertex below `n` not visited yet: it
/// closes a loop of more than four vertices, the ones from `n` on at odd positions.
proof fn lemma_loop_walk(nb: Seq<Seq<usize>>, sel: Seq<usize>, n: usize, p: int, visited: Seq<bool>, v: usize)
    requires
        halving_graph(nb, sel, n, p),
        visited.len() == nb.len(),
        closed(nb, sel, visited),
        isolated(nb, sel, visited),
        is_interior(nb, sel, v),
        !visited[v as int],
        v < n,
    ensures
        ({
            let (chain, end, after) = walk(nb, sel, visited, nb[v as int][0], v, nb.len() as nat);
            &&& after.len() == visited.len()
            &&& closed(nb, sel, after)
            &&& after[v as int]
            &&& chain.len() > 4
            &&& forall|i: int| 0 <= i < chain.len() ==> is_interior(nb, sel, #[trigger] chain[i]) && ((chain[i] >= n) == (i % 2 == 1))
            &&& forall|x: int| 0 <= x < visited.len() && visited[x] ==> #[trigger] after[x]
            &&& forall|x: usize| x < visited.len() && #[trigger] after[x as int] ==> visited[x as int] || chain.contains(x)
        }),
{
    let fuel = nb.len() as nat;
    let q = nb[v as int][0];
    assert(nb[v as int].contains(q));
    assert(fuel >= unvisited(visited)) by {
        lemma_unvisited_bound(visited);
    }
    let (chain, end, after) = walk(nb, sel, visited, q, v, fuel);
    lemma_cycle(nb, sel, n, visited, v, fuel);
    assert(closed(nb, sel, after)) by {
        lemma_walk_closed(nb, sel, n, visited, q, v, fuel);
    }
    assert(after.len() == visited.len() && after[v as int]
        && (forall|x: int| 0 <= x < visited.len() && visited[x] ==> #[trigger] after[x])
        && (forall|x: usize| x < visited.len() && #[trigger] after[x as int] ==> visited[x as int] || chain.contains(x))
        && (forall|i: int| 0 <= i < chain.len() ==> is_interior(nb, sel, #[trigger] chain[i]))
        && (forall|a: int, b: int| 0 <= a < b < chain.len() ==> chain[a] != chain[b])) by {
        lemma_walk(nb, sel, visited, q, v, fuel);
    }
    assert(forall|i: int| 0 <= i < chain.len() ==> ((#[trigger] chain[i] >= n) == (i % 2 == 1))) by {
        lemma_walk_links(nb, sel, n, visited, q, v, fuel);
    }
    assert(forall|i: int| 0 <= i < chain.len() ==> nb[chain[i] as int].contains(#[trigger] after_step(chain, end, i))) by {
        lemma_walk_links(nb, sel, n, visited, q, v, fuel);
    }
    let last = chain.len() - 1;
    // The last vertex is a neighbour of the first, so the chain has even length.
    assert(chain[last] >= n) by {
        let j = 0int;
        assert(nb[v as int][j] == chain[last]);
        assert(is_interior(nb, sel, chain[last]));
        assert(sel.contains(nb[v as int][j]));
    }
    assert(last % 2 == 1);
    if chain.len() == 2 {
        assert(after_step(chain, end, 0) == onward(nb, q, v)) by {
            lemma_walk_steps(nb, sel, visited, q, v, fuel);
        }
        lemma_onward(nb, sel, q, v);
        assert(false);
    }
    if chain.len() == 4 {
        let (a, o, b) = (chain[1], chain[2], chain[3]);
        assert(after_step(chain, end, 0) == a);
        assert(after_step(chain, end, 1) == o);
        assert(after_step(chain, end, 2) == b);
        assert(nb[v as int].contains(a));
        assert(nb[a as int].contains(o));
        assert(nb[o as int].contains(b));
        lemma_symmetric(nb, v, b);
        assert(nb[b as int].contains(v));
        assert(is_interior(nb, sel, a) && is_interior(nb, sel, o) && is_interior(nb, sel, b));
        assert(v != o && a != b);
        assert(false);
    }
}

/// The walks around the closed loops, from the selected vertices from position `i` on.
proof fn lemma_loop_pass(nb: Seq<Seq<usize>>, sel: Seq<usize>, n: usize, p: int, visited: Seq<bool>, i: nat)
    requires
        halving_graph(nb, sel, n, p),
        visited.len() == nb.len(),
        closed(nb, sel, visited),
        anchors_done(nb, sel, visited, sel.len() as int),
        loops_done(nb, sel, visited, i as int),
        i <= sel.len(),
    ensures
        ({
            let (chains, after) = loop_pass(nb, sel, visited, i, nb.len() as nat);
            &&& after.len() == visited.len()
            &&& loops_done(nb, sel, after, sel.len() as int)
            &&& forall|x: usize| x < visited.len() && #[trigger] after[x as int] ==> visited[x as int] || stands_in(chains, x)
            &&& loop_shape(nb, sel, n, chains)
        }),
    decreases sel.len() - i,
{
    let fuel = nb.len() as nat;
    if i < sel.len() {
        let v = sel[i as int];
        assert(sel.contains(v));
        assert(v < nb.len());
        let (now, mid) = if is_interior(nb, sel, v) {
            let (chain, end, after) = walk(nb, sel, visited, nb[v as int][0], v, fuel);
            (seq![(chain, nb[v as int][0], end)], after)
        } else {
            (Seq::<(Seq<usize>, usize, usize)>::empty(), visited)
        };
        if is_interior(nb, sel, v) {
            let (chain, end, after) = walk(nb, sel, visited, nb[v as int][0], v, fuel);
            if visited[v as int] {
                assert(chain.len() == 0 && after == visited);
            } else {
                lemma_isolated(nb, sel, visited);
                if v >= n {
                    let a = nb[v as int][0];
                    lemma_isolated_at(nb, sel, visited, v, 0);
                    assert(sel.contains(a));
                    assert(a < n);
                    let q = choose|q: int| 0 <= q < sel.len() && sel[q] == a;
                    if q >= p {
                        assert(sel[q] >= n);
                    }
                    if i < p {
                        assert(sel[i as int] < n);
                    }
                    assert(is_interior(nb, sel, sel[q]));
                    assert(visited[sel[q] as int]);
                    assert(false);
                }
                lemma_loop_walk(nb, sel, n, p, visited, v);
            }
        }
        assert(mid.len() == visited.len() && closed(nb, sel, mid));
        assert(forall|x: int| 0 <= x < visited.len() && visited[x] ==> #[trigger] mid[x]);
        assert forall|q: int, j: int|
            0 <= q < sel.len() && !is_interior(nb, sel, sel[q]) && sel[q] < nb.len() && 0 <= j < nb[sel[q] as int].len()
                && is_interior(nb, sel, #[trigger] nb[sel[q] as int][j]) implies mid[nb[sel[q] as int][j] as int] by {
            assert(visited[nb[sel[q] as int][j] as int]);
        }
        assert forall|q: int| 0 <= q < i + 1 && q < sel.len() && is_interior(nb, sel, #[trigger] sel[q]) implies mid[sel[q] as int] by {
            if q < i {
                assert(visited[sel[q] as int]);
            }
        }
        lemma_loop_pass(nb, sel, n, p, mid, i + 1);
        let (rest, last) = loop_pass(nb, sel, mid, i + 1, fuel);
        let chains = now + rest;
        assert(loop_pass(nb, sel, visited, i, fuel) == (chains, last));
        assert forall|x: usize| x < visited.len() && #[trigger] last[x as int] implies visited[x as int] || stands_in(chains, x) by {
            if stands_in(rest, x) {
                let (c, k) = choose|c: int, k: int| 0 <= c < rest.len() && 0 <= k < rest[c].0.len() && rest[c].0[k] == x;
                assert(chains[now.len() + c] == rest[c]);
            } else if !visited[x as int] {
                assert(mid[x as int]);
                assert(now.len() == 1);
                assert(now[0].0.contains(x));
                let k = choose|k: int| 0 <= k < now[0].0.len() && now[0].0[k] == x;
                assert(chains[0] == now[0]);
            }
        }
        assert forall|c: int| 0 <= c < chains.len() implies #[trigger] chains[c].0.len() == 0 || chains[c].0.len() > 4 by {
            if c < now.len() {
                assert(chains[c] == now[c]);
            } else {
                assert(chains[c] == rest[c - now.len()]);
            }
        }
        assert forall|c: int, k: int| 0 <= c < chains.len() && 0 <= k < chains[c].0.len()
            implies is_interior(nb, sel, #[trigger] chains[c].0[k]) && ((chains[c].0[k] >= n) == (k % 2 == 1)) by {
            if c < now.len() {
                assert(chains[c] == now[c]);
            } else {
                assert(chains[c] == rest[c - now.len()]);
            }
        }
    } else {
        assert(loop_pass(nb, sel, visited, i, fuel) == (Seq::<(Seq<usize>, usize, usize)>::empty(), visited));
    }
}

} // verus!

verus! {

/// What the walks out of the chain ends take is what stands at their even positions.
proof fn lemma_open_pieces(chains: Seq<(Seq<usize>, usize, usize)>, x: usize)
    ensures
        open_pieces(chains).contains(x) <==> exists|c: int, i: int|
            0 <= c < chains.len() && 0 <= i < chains[c].0.len() && i % 2 == 0 && #[trigger] chains[c].0[i] == x,
    decreases chains.len(),
{
    if chains.len() > 0 {
        let prior = chains.drop_last();
        let last = chains.last().0;
        lemma_open_pieces(prior, x);
        let e = evens(last);
        assert(open_pieces(chains) == open_pieces(prior) + e);
        if open_pieces(chains).contains(x) {
            if open_pieces(prior).contains(x) {
                let (c, i) = choose|c: int, i: int|
                    0 <= c < prior.len() && 0 <= i < prior[c].0.len() && i % 2 == 0 && #[trigger] prior[c].0[i] == x;
                assert(chains[c] == prior[c]);
            } else {
                let k = choose|k: int| 0 <= k < (open_pieces(prior) + e).len() && (open_pieces(prior) + e)[k] == x;
                let t = k - open_pieces(prior).len();
                assert(e[t] == last[2 * t]);
                assert(chains[chains.len() - 1].0[2 * t] == x);
            }
        }
        if exists|c: int, i: int| 0 <= c < chains.len() && 0 <= i < chains[c].0.len() && i % 2 == 0 && #[trigger] chains[c].0[i] == x {
            let (c, i) = choose|c: int, i: int|
                0 <= c < chains.len() && 0 <= i < chains[c].0.len() && i % 2 == 0 && #[trigger] chains[c].0[i] == x;
            if c < chains.len() - 1 {
                assert(prior[c] == chains[c]);
                assert(prior[c].0[i] == x);
                assert(open_pieces(prior).contains(x));
                let k = choose|k: int| 0 <= k < open_pieces(prior).len() && open_pieces(prior)[k] == x;
                assert((open_pieces(prior) + e)[k] == x);
            } else {
                assert(e[i / 2] == x);
                assert((open_pieces(prior) + e)[open_pieces(prior).len() + i / 2] == x);
            }
        }
    }
}

/// What the walks around the loops take is what stands at the odd positions of the loops
/// of more than four vertices.
proof fn lemma_loop_pieces(chains: Seq<(Seq<usize>, usize, usize)>, x: usize)
    ensures
        loop_pieces(chains).contains(x) <==> exists|c: int, i: int|
            0 <= c < chains.len() && 0 <= i < chains[c].0.len() && i % 2 == 1 && chains[c].0.len() > 4
                && #[trigger] chains[c].0[i] == x,
    decreases chains.len(),
{
    if chains.len() > 0 {
        let prior = chains.drop_last();
        let last = chains.last().0;
        lemma_loop_pieces(prior, x);
        let e = if last.len() > 4 { odds(last) } else { Seq::<usize>::empty() };
        assert(loop_pieces(chains) == loop_pieces(prior) + e);
        if loop_pieces(chains).contains(x) {
            if loop_pieces(prior).contains(x) {
                let (c, i) = choose|c: int, i: int|
                    0 <= c < prior.len() && 0 <= i < prior[c].0.len() && i % 2 == 1 && prior[c].0.len() > 4
                        && #[trigger] prior[c].0[i] == x;
                assert(chains[c] == prior[c]);
            } else {
                let k = choose|k: int| 0 <= k < (loop_pieces(prior) + e).len() && (loop_pieces(prior) + e)[k] == x;
                let t = k - loop_pieces(prior).len();
                assert(e[t] == last[2 * t + 1]);
                assert(chains[chains.len() - 1].0[2 * t + 1] == x);
            }
        }
        if exists|c: int, i: int| 0 <= c < chains.len() && 0 <= i < chains[c].0.len() && i % 2 == 1 && chains[c].0.len() > 4
            && #[trigger] chains[c].0[i] == x {
            let (c, i) = choose|c: int, i: int|
                0 <= c < chains.len() && 0 <= i < chains[c].0.len() && i % 2 == 1 && chains[c].0.len() > 4
                    && #[trigger] chains[c].0[i] == x;
            if c < chains.len() - 1 {
                assert(prior[c] == chains[c]);
                assert(prior[c].0[i] == x);
                assert(loop_pieces(prior).contains(x));
                let k = choose|k: int| 0 <= k < loop_pieces(prior).len() && loop_pieces(prior)[k] == x;
                assert((loop_pieces(prior) + e)[k] == x);
            } else {
                assert(e[i / 2] == x);
                assert((loop_pieces(prior) + e)[loop_pieces(prior).len() + i / 2] == x);
            }
        }
    }
}

/// The vertices the walks of a decimation take from a selection of the shape a
/// subdivision leaves: exactly those from `n` on.
proof fn lemma_halving(nb: Seq<Seq<usize>>, sel: Seq<usize>, n: usize, p: int)
    requires
        halving_graph(nb, sel, n, p),
    ensures
        ({
            let fresh = Seq::new(nb.len(), |v: int| false);
            let (first, after) = anchor_pass(nb, sel, fresh, 0, nb.len());
            let taken = open_pieces(first) + loop_pieces(loop_pass(nb, sel, after, 0, nb.len()).0);
            forall|x: usize| taken.contains(x) <==> n <= x < nb.len()
        }),
{
    let fuel = nb.len() as nat;
    let fresh = Seq::new(nb.len(), |v: int| false);
    assert(closed(nb, sel, fresh)) by {
        reveal(closed);
    }
    lemma_anchor_pass(nb, sel, n, p, fresh, 0);
    let (first, after) = anchor_pass(nb, sel, fresh, 0, fuel);
    lemma_loop_pass(nb, sel, n, p, after, 0);
    let (second, last) = loop_pass(nb, sel, after, 0, fuel);
    let taken = open_pieces(first) + loop_pieces(second);
    assert forall|x: usize| taken.contains(x) <==> n <= x < nb.len() by {
        lemma_open_pieces(first, x);
        lemma_loop_pieces(second, x);
        if taken.contains(x) {
            let k = choose|k: int| 0 <= k < taken.len() && taken[k] == x;
            if k < open_pieces(first).len() {
                assert(open_pieces(first).contains(x));
                let (c, i) = choose|c: int, i: int|
                    0 <= c < first.len() && 0 <= i < first[c].0.len() && i % 2 == 0 && #[trigger] first[c].0[i] == x;
                assert(is_interior(nb, sel, first[c].0[i]));
            } else {
                assert(loop_pieces(second)[k - open_pieces(first).len()] == x);
                assert(loop_pieces(second).contains(x));
                let (c, i) = choose|c: int, i: int|
                    0 <= c < second.len() && 0 <= i < second[c].0.len() && i % 2 == 1 && second[c].0.len() > 4
                        && #[trigger] second[c].0[i] == x;
                assert(is_interior(nb, sel, second[c].0[i]));
            }
        }
        if n <= x < nb.len() {
            assert(is_interior(nb, sel, x));
            assert(sel.contains(x));
            let q = choose|q: int| 0 <= q < sel.len() && sel[q] == x;
            assert(last[sel[q] as int]);
            assert(!fresh[x as int]);
            if stands_in(first, x) {
                let (c, i) = choose|c: int, i: int| 0 <= c < first.len() && 0 <= i < first[c].0.len() && first[c].0[i] == x;
                assert(i % 2 == 0);
                assert(open_pieces(first).contains(x));
                let k = choose|k: int| 0 <= k < open_pieces(first).len() && open_pieces(first)[k] == x;
                assert(taken[k] == x);
            } else {
                assert(after[x as int] || stands_in(second, x));
                assert(stands_in(second, x));
                let (c, i) = choose|c: int, i: int| 0 <= c < second.len() && 0 <= i < second[c].0.len() && second[c].0[i] == x;
                assert(i % 2 == 1);
                assert(second[c].0.len() > 4);
                assert(loop_pieces(second).contains(x));
                let k = choose|k: int| 0 <= k < loop_pieces(second).len() && loop_pieces(second)[k] == x;
                assert(taken[open_pieces(first).len() + k] == x);
            }
        }
    }
}

} // verus!

verus! {

/// The edges a subdivision splits: in increasing order, each with both ends in `list`,
/// and every edge with both ends in `list` among them.
proof fn lemma_targets(edges: Seq<Seq<usize>>, list: Seq<usize>)
    requires
        edges.len() <= usize::MAX,
    ensures
        forall|a: int, b: int| 0 <= a < b < target_edges(edges, list).len()
            ==> target_edges(edges, list)[a] < target_edges(edges, list)[b],
        forall|k: int| 0 <= k < target_edges(edges, list).len() ==> {
            let i = #[trigger] target_edges(edges, list)[k];
            i < edges.len() && list.contains(edges[i as int][0]) && list.contains(edges[i as int][1])
        },
        forall|i: int| 0 <= i < edges.len() && list.contains(edges[i][0]) && list.contains(edges[i][1])
            ==> #[trigger] target_edges(edges, list).contains(i as usize),
    decreases edges.len(),
{
    if edges.len() > 0 {
        let prior = edges.drop_last();
        lemma_targets(prior, list);
        let (now, was) = (target_edges(edges, list), target_edges(prior, list));
        let e = edges.last();
        let top = (edges.len() - 1) as usize;
        assert forall|a: int, b: int| 0 <= a < b < now.len() implies now[a] < now[b] by {
            if b < was.len() {
                assert(now[a] == was[a] && now[b] == was[b]);
            } else {
                assert(now[a] == was[a]);
                assert(was[a] < prior.len());
                assert(now[b] == top);
            }
        }
        assert forall|k: int| 0 <= k < now.len() implies {
            let i = #[trigger] now[k];
            i < edges.len() && list.contains(edges[i as int][0]) && list.contains(edges[i as int][1])
        } by {
            if k < was.len() {
                assert(now[k] == was[k]);
                assert(edges[was[k] as int] == prior[was[k] as int]);
            } else {
                assert(now[k] == top);
                assert(edges[top as int] == e);
            }
        }
        assert forall|i: int| 0 <= i < edges.len() && list.contains(edges[i][0]) && list.contains(edges[i][1])
            implies #[trigger] now.contains(i as usize) by {
            if i < prior.len() {
                assert(prior[i] == edges[i]);
                assert(was.contains(i as usize));
                let k = choose|k: int| 0 <= k < was.len() && was[k] == i as usize;
                assert(now[k] == was[k]);
            } else {
                assert(now[now.len() - 1] == top);
            }
        }
    }
}

/// The subdivided mesh, edge by edge: the k-th split edge ends at the k-th new vertex,
/// and a new edge leads on from it to the other end; the vertices before stay.
proof fn lemma_split_shape(mesh: MeshView, targets: Seq<usize>, points: Seq<Point>)
    requires
        mesh.well_formed(),
        mesh.vertices.len() + targets.len() <= usize::MAX,
        points.len() >= targets.len(),
        forall|a: int, b: int| 0 <= a < b < targets.len() ==> targets[a] < targets[b],
        forall|k: int| 0 <= k < targets.len() ==> #[trigger] targets[k] < mesh.edges.len(),
    ensures
        ({
            let sub = subdivided(mesh, targets, points);
            let (n, m) = (mesh.vertices.len(), mesh.edges.len());
            &&& sub.vertices.len() == n + targets.len()
            &&& sub.vertices.take(n as int) == mesh.vertices
            &&& sub.edges.len() == m + targets.len()
            &&& forall|k: int| 0 <= k < targets.len()
                ==> #[trigger] sub.edges[targets[k] as int] == seq![mesh.edges[targets[k] as int][0], (n + k) as usize]
            &&& forall|k: int| 0 <= k < targets.len()
                ==> #[trigger] sub.edges[m + k] == seq![(n + k) as usize, mesh.edges[targets[k] as int][1]]
            &&& forall|i: int| 0 <= i < m && !targets.contains(i as usize) ==> #[trigger] sub.edges[i] == mesh.edges[i]
        }),
    decreases targets.len(),
{
    let (n, m) = (mesh.vertices.len(), mesh.edges.len());
    if targets.len() > 0 {
        let k = targets.len() - 1;
        let prior = targets.drop_last();
        lemma_split_shape(mesh, prior, points);
        crate::refine::lemma_subdivided(mesh, prior, points);
        let before = subdivided(mesh, prior, points);
        let sub = subdivided(mesh, targets, points);
        let t = targets[k];
        assert(!prior.contains(t)) by {
            if prior.contains(t) {
                let a = choose|a: int| 0 <= a < prior.len() && prior[a] == t;
                assert(targets[a] < targets[k]);
            }
        }
        assert(before.edges[t as int] == mesh.edges[t as int]);
        assert(sub == crate::refine::split_edge(before, t as int, points[k]));
        assert(sub.vertices.take(n as int) =~= mesh.vertices) by {
            assert(before.vertices.take(n as int) == mesh.vertices);
            assert forall|i: int| 0 <= i < n implies sub.vertices[i] == before.vertices[i] by {}
        }
        assert forall|j: int| 0 <= j < targets.len()
            implies #[trigger] sub.edges[targets[j] as int] == seq![mesh.edges[targets[j] as int][0], (n + j) as usize] by {
            if j < k {
                assert(prior[j] == targets[j]);
                assert(targets[j] < targets[k]);
            }
        }
        assert forall|j: int| 0 <= j < targets.len()
            implies #[trigger] sub.edges[m + j] == seq![(n + j) as usize, mesh.edges[targets[j] as int][1]] by {
            if j < k {
                assert(prior[j] == targets[j]);
                assert(before.edges[m + j] == seq![(n + j) as usize, mesh.edges[prior[j] as int][1]]);
            }
        }
        assert forall|i: int| 0 <= i < m && !targets.contains(i as usize) implies #[trigger] sub.edges[i] == mesh.edges[i] by {
            if prior.contains(i as usize) {
                let a = choose|a: int| 0 <= a < prior.len() && prior[a] == i as usize;
                assert(targets[a] == i as usize);
            }
            assert(i != t);
        }
    } else {
        assert(mesh.vertices.take(n as int) =~= mesh.vertices);
    }
}

} // verus!

verus! {

/// How many ends of edge `e` meet `v`.
pub open spec fn ends_at(e: Seq<usize>, v: usize) -> int {
    (if e[0] == v { 1int } else { 0int }) + (if e[1] == v { 1int } else { 0int })
}

proof fn lemma_list_update(edges: Seq<Seq<usize>>, i: int, e: Seq<usize>, v: usize)
    requires
        0 <= i < edges.len(),
    ensures
        neighbour_list(edges.update(i, e), v).len() == neighbour_list(edges, v).len() - ends_at(edges[i], v) + ends_at(e, v),
    decreases edges.len(),
{
    let changed = edges.update(i, e);
    if i == edges.len() - 1 {
        assert(changed.drop_last() =~= edges.drop_last());
    } else {
        lemma_list_update(edges.drop_last(), i, e, v);
        assert(changed.drop_last() =~= edges.drop_last().update(i, e));
        assert(changed.last() == edges.last());
    }
}

proof fn lemma_list_push(edges: Seq<Seq<usize>>, e: Seq<usize>, v: usize)
    ensures
        neighbour_list(edges.push(e), v).len() == neighbour_list(edges, v).len() + ends_at(e, v),
{
    assert(edges.push(e).drop_last() =~= edges);
}

proof fn lemma_list_absent(edges: Seq<Seq<usize>>, v: usize)
    requires
        forall|i: int| 0 <= i < edges.len() ==> #[trigger] edges[i][0] != v && edges[i][1] != v,
    ensures
        neighbour_list(edges, v).len() == 0,
    decreases edges.len(),
{
    if edges.len() > 0 {
        lemma_list_absent(edges.drop_last(), v);
        assert(edges[edges.len() - 1] == edges.last());
    }
}

/// A subdivision keeps how many neighbours each earlier vertex has, and gives each new
/// vertex two.
proof fn lemma_split_degrees(mesh: MeshView, targets: Seq<usize>, points: Seq<Point>)
    requires
        mesh.well_formed(),
        mesh.vertices.len() + targets.len() <= usize::MAX,
        points.len() >= targets.len(),
        forall|k: int| 0 <= k < targets.len() ==> #[trigger] targets[k] < mesh.edges.len(),
    ensures
        ({
            let sub = subdivided(mesh, targets, points);
            let n = mesh.vertices.len();
            &&& forall|v: usize| v < n ==> #[trigger] neighbour_list(sub.edges, v).len() == neighbour_list(mesh.edges, v).len()
            &&& forall|k: int| 0 <= k < targets.len() ==> #[trigger] neighbour_list(sub.edges, (n + k) as usize).len() == 2
        }),
    decreases targets.len(),
{
    let n = mesh.vertices.len();
    if targets.len() > 0 {
        let k = targets.len() - 1;
        let prior = targets.drop_last();
        lemma_split_degrees(mesh, prior, points);
        crate::refine::lemma_subdivided(mesh, prior, points);
        let before = subdivided(mesh, prior, points);
        let sub = subdivided(mesh, targets, points);
        let t = targets[k] as int;
        assert(t < before.edges.len());
        let (a, b) = (before.edges[t][0], before.edges[t][1]);
        let mid = before.vertices.len() as usize;
        assert(mid == n + k);
        let first = before.edges.update(t, seq![a, mid]);
        assert(sub.edges == first.push(seq![mid, b]));
        assert forall|v: usize| v < n implies #[trigger] neighbour_list(sub.edges, v).len() == neighbour_list(mesh.edges, v).len() by {
            lemma_list_update(before.edges, t, seq![a, mid], v);
            lemma_list_push(first, seq![mid, b], v);
        }
        assert forall|j: int| 0 <= j < targets.len() implies #[trigger] neighbour_list(sub.edges, (n + j) as usize).len() == 2 by {
            let w = (n + j) as usize;
            lemma_list_update(before.edges, t, seq![a, mid], w);
            lemma_list_push(first, seq![mid, b], w);
            if j == k {
                assert forall|i: int| 0 <= i < before.edges.len() implies #[trigger] before.edges[i][0] != w && before.edges[i][1] != w by {
                    assert(before.edges[i].len() == 2);
                }
                lemma_list_absent(before.edges, w);
            } else {
                assert(prior[j] == targets[j]);
            }
        }
    }
}

/// Two edges joining `v` and `o` put `o` twice in the neighbour list of `v`.
proof fn lemma_two_edges(edges: Seq<Seq<usize>>, v: usize, o: usize, i1: int, i2: int)
    requires
        forall|i: int| 0 <= i < edges.len() ==> #[trigger] edges[i].len() == 2,
        0 <= i1 < i2 < edges.len(),
        v != o,
        (edges[i1][0] == v && edges[i1][1] == o) || (edges[i1][0] == o && edges[i1][1] == v),
        (edges[i2][0] == v && edges[i2][1] == o) || (edges[i2][0] == o && edges[i2][1] == v),
    ensures
        exists|p1: int, p2: int| 0 <= p1 < p2 < neighbour_list(edges, v).len()
            && neighbour_list(edges, v)[p1] == o && neighbour_list(edges, v)[p2] == o,
    decreases edges.len(),
{
    let prior = edges.drop_last();
    let list = neighbour_list(edges, v);
    let was = neighbour_list(prior, v);
    if i2 < edges.len() - 1 {
        lemma_two_edges(prior, v, o, i1, i2);
        let (p1, p2) = choose|p1: int, p2: int| 0 <= p1 < p2 < was.len() && was[p1] == o && was[p2] == o;
        assert(list[p1] == o && list[p2] == o);
    } else {
        assert(prior[i1] == edges[i1]);
        assert(crate::graph::adjacent(prior, v, o));
        crate::graph::lemma_neighbour_list(prior, v, o);
        let p1 = choose|p: int| 0 <= p < was.len() && was[p] == o;
        assert(edges.last() == edges[i2]);
        assert(list == was.push(o));
        assert(list[p1] == o && list[was.len() as int] == o);
    }
}

} // verus!

verus! {

/// The edges of the subdivided mesh join two earlier vertices along an edge that was not
/// split, or a new vertex to an end of the edge it split.
proof fn lemma_split_adjacent(mesh: MeshView, list: Seq<usize>, points: Seq<Point>, x: usize, y: usize)
    requires
        mesh.well_formed(),
        mesh.vertices.len() + target_edges(mesh.edges, list).len() <= usize::MAX,
        mesh.edges.len() <= usize::MAX,
        points.len() >= target_edges(mesh.edges, list).len(),
        crate::graph::adjacent(subdivided(mesh, target_edges(mesh.edges, list), points).edges, x, y),
    ensures
        ({
            let (targets, n) = (target_edges(mesh.edges, list), mesh.vertices.len());
            let e = mesh.edges;
            ||| x < n && y < n && exists|i: int| 0 <= i < e.len() && !targets.contains(i as usize)
                && ((e[i][0] == x && e[i][1] == y) || (e[i][0] == y && e[i][1] == x))
            ||| n <= x < n + targets.len() && y < n && list.contains(y)
                && (y == e[targets[x - n] as int][0] || y == e[targets[x - n] as int][1])
            ||| n <= y < n + targets.len() && x < n && list.contains(x)
                && (x == e[targets[y - n] as int][0] || x == e[targets[y - n] as int][1])
        }),
{
    let (targets, n, m) = (target_edges(mesh.edges, list), mesh.vertices.len(), mesh.edges.len());
    let e = mesh.edges;
    lemma_targets(e, list);
    lemma_split_shape(mesh, targets, points);
    let sub = subdivided(mesh, targets, points);
    let i = choose|i: int| 0 <= i < sub.edges.len()
        && ((sub.edges[i][0] == x && sub.edges[i][1] == y) || (sub.edges[i][0] == y && sub.edges[i][1] == x));
    if i >= m {
        let k = i - m;
        assert(sub.edges[m + k] == seq![(n + k) as usize, e[targets[k] as int][1]]);
        assert(targets[k] < e.len());
        assert(e[targets[k] as int].len() == 2);
    } else if targets.contains(i as usize) {
        let k = choose|k: int| 0 <= k < targets.len() && targets[k] == i as usize;
        assert(sub.edges[targets[k] as int] == seq![e[targets[k] as int][0], (n + k) as usize]);
        assert(e[targets[k] as int].len() == 2);
    } else {
        assert(sub.edges[i] == e[i]);
        assert(e[i].len() == 2);
    }
}

/// A selected vertex below `n` is one of `list`.
proof fn lemma_lower_listed(list: Seq<usize>, n: usize, count: int, x: usize)
    requires
        (list + index_range(n as int, count)).contains(x),
        x < n,
        0 <= count,
        n + count <= usize::MAX,
    ensures
        list.contains(x),
{
    let sel = list + index_range(n as int, count);
    let q = choose|q: int| 0 <= q < sel.len() && sel[q] == x;
    if q >= list.len() {
        assert(sel[q] == index_range(n as int, count)[q - list.len()]);
    } else {
        assert(list[q] == x);
    }
}

} // verus!

verus! {

/// The requirements of the law below: a well-formed mesh, vertices of it to subdivide
/// between, as many points as edges to split, room for the new vertices, and the
/// decimation's own requirement on the subdivided mesh.
pub open spec fn subdivision_ready(mesh: MeshView, list: Seq<usize>, points: Seq<Point>) -> bool {
    let targets = target_edges(mesh.edges, list);
    let sub = subdivided(mesh, targets, points);
    &&& mesh.well_formed()
    &&& forall|i: int| 0 <= i < list.len() ==> #[trigger] list[i] < mesh.vertices.len()
    &&& points.len() == targets.len()
    &&& mesh.vertices.len() + points.len() <= usize::MAX
    &&& mesh.edges.len() <= usize::MAX
    &&& no_double(crate::chains::neighbour_lists(sub), list + index_range(mesh.vertices.len() as int, points.len() as int))
}

/// No closed loop of two vertices of `list`: no interior vertex has both its neighbours
/// the same vertex that is interior too.
pub open spec fn no_pair_loop(nb: Seq<Seq<usize>>, list: Seq<usize>) -> bool {
    forall|v: usize| #[trigger] is_interior(nb, list, v) && nb[v as int][0] == nb[v as int][1]
        ==> !is_interior(nb, list, nb[v as int][0])
}

proof fn lemma_split_symmetric(mesh: MeshView, list: Seq<usize>, points: Seq<Point>)
    requires
        subdivision_ready(mesh, list, points),
    ensures
        symmetric(crate::chains::neighbour_lists(subdivided(mesh, target_edges(mesh.edges, list), points))),
{
    let targets = target_edges(mesh.edges, list);
    let sub = subdivided(mesh, targets, points);
    let nb = crate::chains::neighbour_lists(sub);
    lemma_targets(mesh.edges, list);
    crate::refine::lemma_subdivided(mesh, targets, points);
    crate::chains::lemma_lists(sub);
    reveal(symmetric);
    assert forall|x: int, j: int| 0 <= x < nb.len() && 0 <= j < nb[x].len() implies nb[#[trigger] nb[x][j] as int].contains(x as usize) by {
        let y = nb[x][j];
        assert(nb[x] == neighbour_list(sub.edges, x as usize));
        assert(nb[x].contains(y));
        crate::graph::lemma_neighbour_list(sub.edges, x as usize, y);
        let i = choose|i: int| 0 <= i < sub.edges.len()
            && ((sub.edges[i][0] == x as usize && sub.edges[i][1] == y) || (sub.edges[i][0] == y && sub.edges[i][1] == x as usize));
        assert(crate::graph::adjacent(sub.edges, y, x as usize));
        crate::graph::lemma_neighbour_list(sub.edges, y, x as usize);
        assert(y < nb.len());
        assert(nb[y as int] == neighbour_list(sub.edges, y));
    }
}

proof fn lemma_split_alternating(mesh: MeshView, list: Seq<usize>, points: Seq<Point>)
    requires
        subdivision_ready(mesh, list, points),
    ensures
        alternating(crate::chains::neighbour_lists(subdivided(mesh, target_edges(mesh.edges, list), points)),
            list + index_range(mesh.vertices.len() as int, points.len() as int), mesh.vertices.len() as usize),
{
    let targets = target_edges(mesh.edges, list);
    let sub = subdivided(mesh, targets, points);
    let nb = crate::chains::neighbour_lists(sub);
    let n = mesh.vertices.len() as usize;
    let sel = list + index_range(n as int, points.len() as int);
    lemma_targets(mesh.edges, list);
    crate::refine::lemma_subdivided(mesh, targets, points);
    assert forall|x: int, j: int|
        0 <= x < nb.len() && 0 <= j < nb[x].len() && sel.contains(x as usize) && sel.contains(#[trigger] nb[x][j])
        implies ((x >= n) != (nb[x][j] >= n)) by {
        let y = nb[x][j];
        assert(nb[x] == neighbour_list(sub.edges, x as usize));
        assert(nb[x].contains(y));
        crate::graph::lemma_neighbour_list(sub.edges, x as usize, y);
        lemma_split_adjacent(mesh, list, points, x as usize, y);
        if x < n && y < n {
            let i = choose|i: int| 0 <= i < mesh.edges.len() && !targets.contains(i as usize)
                && ((mesh.edges[i][0] == x as usize && mesh.edges[i][1] == y) || (mesh.edges[i][0] == y && mesh.edges[i][1] == x as usize));
            lemma_lower_listed(list, n, points.len() as int, x as usize);
            lemma_lower_listed(list, n, points.len() as int, y);
            assert(targets.contains(i as usize));
        }
    }
}

proof fn lemma_split_upper(mesh: MeshView, list: Seq<usize>, points: Seq<Point>)
    requires
        subdivision_ready(mesh, list, points),
    ensures
        upper_interior(crate::chains::neighbour_lists(subdivided(mesh, target_edges(mesh.edges, list), points)),
            list + index_range(mesh.vertices.len() as int, points.len() as int), mesh.vertices.len() as usize),
{
    let targets = target_edges(mesh.edges, list);
    let sub = subdivided(mesh, targets, points);
    let nb = crate::chains::neighbour_lists(sub);
    let n = mesh.vertices.len() as usize;
    let added = index_range(n as int, points.len() as int);
    let sel = list + added;
    lemma_targets(mesh.edges, list);
    lemma_split_shape(mesh, targets, points);
    lemma_split_degrees(mesh, targets, points);
    crate::refine::lemma_subdivided(mesh, targets, points);
    assert forall|x: usize| n <= x < nb.len() implies #[trigger] is_interior(nb, sel, x) by {
        let k = x - n;
        assert(sel[list.len() + k] == added[k]);
        assert(sel.contains(x));
        assert(nb[x as int] == neighbour_list(sub.edges, x));
        assert(neighbour_list(sub.edges, (n + k) as usize).len() == 2);
        assert forall|j: int| 0 <= j < 2 implies sel.contains(#[trigger] nb[x as int][j]) by {
            let y = nb[x as int][j];
            assert(nb[x as int].contains(y));
            crate::graph::lemma_neighbour_list(sub.edges, x, y);
            lemma_split_adjacent(mesh, list, points, x, y);
            let q = choose|q: int| 0 <= q < list.len() && list[q] == y;
            assert(sel[q] == y);
        }
        assert(sel.contains(nb[x as int][0]));
        assert(sel.contains(nb[x as int][1]));
    }
}

} // verus!

verus! {

/// Two new vertices that both join the same two earlier vertices split two edges between
/// them; where both of those are interior, they form a closed loop of two.
proof fn lemma_split_no_square(mesh: MeshView, list: Seq<usize>, points: Seq<Point>)
    requires
        subdivision_ready(mesh, list, points),
        no_pair_loop(crate::chains::neighbour_lists(mesh), list),
    ensures
        no_square(crate::chains::neighbour_lists(subdivided(mesh, target_edges(mesh.edges, list), points)),
            list + index_range(mesh.vertices.len() as int, points.len() as int), mesh.vertices.len() as usize),
{
    let targets = target_edges(mesh.edges, list);
    let sub = subdivided(mesh, targets, points);
    let nb = crate::chains::neighbour_lists(sub);
    let old_nb = crate::chains::neighbour_lists(mesh);
    let n = mesh.vertices.len() as usize;
    let sel = list + index_range(n as int, points.len() as int);
    let e = mesh.edges;
    lemma_targets(e, list);
    lemma_split_degrees(mesh, targets, points);
    crate::refine::lemma_subdivided(mesh, targets, points);
    crate::chains::lemma_lists(sub);
    lemma_split_symmetric(mesh, list, points);
    lemma_split_alternating(mesh, list, points);
    assert forall|v: usize, a: usize, o: usize, b: usize|
        v < n && is_interior(nb, sel, v) && is_interior(nb, sel, a) && is_interior(nb, sel, o) && is_interior(nb, sel, b)
            && v != o && a != b && nb[v as int].contains(a) && nb[a as int].contains(o) && nb[o as int].contains(b)
            && nb[b as int].contains(v) implies false by {
        lemma_symmetric(nb, v, a);
        lemma_symmetric(nb, o, b);
        let ja = choose|j: int| 0 <= j < nb[v as int].len() && nb[v as int][j] == a;
        let jo = choose|j: int| 0 <= j < nb[a as int].len() && nb[a as int][j] == o;
        let jb = choose|j: int| 0 <= j < nb[o as int].len() && nb[o as int][j] == b;
        assert(sel.contains(nb[v as int][ja]));
        assert(sel.contains(nb[a as int][jo]));
        assert(sel.contains(nb[o as int][jb]));
        assert(a >= n);
        assert(o < n);
        assert(b >= n);
        // Each of the two new vertices joins `v` and `o`.
        assert(nb[a as int] == neighbour_list(sub.edges, a));
        assert(nb[b as int] == neighbour_list(sub.edges, b));
        crate::graph::lemma_neighbour_list(sub.edges, a, v);
        crate::graph::lemma_neighbour_list(sub.edges, a, o);
        crate::graph::lemma_neighbour_list(sub.edges, b, v);
        crate::graph::lemma_neighbour_list(sub.edges, b, o);
        lemma_split_adjacent(mesh, list, points, a, v);
        lemma_split_adjacent(mesh, list, points, a, o);
        lemma_split_adjacent(mesh, list, points, b, v);
        lemma_split_adjacent(mesh, list, points, b, o);
        let (ka, kb) = (a - n, b - n);
        let (ia, ib) = (targets[ka] as int, targets[kb] as int);
        assert(ia != ib) by {
            if ka < kb {
                assert(targets[ka] < targets[kb]);
            } else {
                assert(targets[kb] < targets[ka]);
            }
        }
        assert(e[ia].len() == 2 && e[ib].len() == 2);
        let (i1, i2) = if ia < ib { (ia, ib) } else { (ib, ia) };
        lemma_two_edges(e, v, o, i1, i2);
        lemma_two_edges(e, o, v, i1, i2);
        // Both were interior before, each with the other as its neighbour twice.
        assert(nb[v as int] == neighbour_list(sub.edges, v));
        assert(nb[o as int] == neighbour_list(sub.edges, o));
        assert(neighbour_list(e, v).len() == 2);
        assert(neighbour_list(e, o).len() == 2);
        assert(old_nb[v as int] == neighbour_list(e, v));
        assert(old_nb[o as int] == neighbour_list(e, o));
        let (p1, p2) = choose|p1: int, p2: int| 0 <= p1 < p2 < neighbour_list(e, v).len()
            && neighbour_list(e, v)[p1] == o && neighbour_list(e, v)[p2] == o;
        let (r1, r2) = choose|p1: int, p2: int| 0 <= p1 < p2 < neighbour_list(e, o).len()
            && neighbour_list(e, o)[p1] == v && neighbour_list(e, o)[p2] == v;
        assert(old_nb[v as int][0] == o && old_nb[v as int][1] == o);
        assert(old_nb[o as int][0] == v && old_nb[o as int][1] == v);
        lemma_lower_listed(list, n, points.len() as int, v);
        lemma_lower_listed(list, n, points.len() as int, o);
        assert(is_interior(old_nb, list, v));
        assert(is_interior(old_nb, list, o));
    }
}

/// The subdivided mesh, with `list` and the new vertices selected, has the shape the
/// walks of a decimation halve.
proof fn lemma_split_halving(mesh: MeshView, list: Seq<usize>, points: Seq<Point>)
    requires
        subdivision_ready(mesh, list, points),
        no_pair_loop(crate::chains::neighbour_lists(mesh), list),
    ensures
        halving_graph(crate::chains::neighbour_lists(subdivided(mesh, target_edges(mesh.edges, list), points)),
            list + index_range(mesh.vertices.len() as int, points.len() as int), mesh.vertices.len() as usize,
            list.len() as int),
{
    let targets = target_edges(mesh.edges, list);
    let sub = subdivided(mesh, targets, points);
    let nb = crate::chains::neighbour_lists(sub);
    let n = mesh.vertices.len() as usize;
    let added = index_range(n as int, points.len() as int);
    let sel = list + added;
    lemma_targets(mesh.edges, list);
    lemma_split_shape(mesh, targets, points);
    crate::refine::lemma_subdivided(mesh, targets, points);
    crate::chains::lemma_lists(sub);
    lemma_split_symmetric(mesh, list, points);
    lemma_split_alternating(mesh, list, points);
    lemma_split_upper(mesh, list, points);
    lemma_split_no_square(mesh, list, points);
    assert forall|i: int| 0 <= i < list.len() implies #[trigger] sel[i] < n by {
        assert(sel[i] == list[i]);
    }
    assert forall|i: int| list.len() <= i < sel.len() implies #[trigger] sel[i] >= n by {
        assert(sel[i] == added[i - list.len()]);
    }
    assert(lower_first(sel, n, list.len() as int));
    assert forall|i: int| 0 <= i < sel.len() implies #[trigger] sel[i] < nb.len() by {
        if i < list.len() {
            assert(sel[i] == list[i]);
        } else {
            assert(sel[i] == added[i - list.len()]);
        }
    }
}

} // verus!

verus! {

proof fn lemma_kept_prefix_upto(items: Seq<Point>, removed: Seq<usize>, n: int, top: int)
    requires
        0 <= n <= items.len() <= top <= usize::MAX,
        forall|x: usize| removed.contains(x) <==> n <= x < top,
    ensures
        crate::removal::kept(items, removed) == items.take(n),
    decreases items.len(),
{
    if items.len() > n {
        let prior = items.drop_last();
        assert(removed.contains((items.len() - 1) as usize));
        lemma_kept_prefix_upto(prior, removed, n, top);
        assert(prior.take(n) =~= items.take(n));
    } else {
        lemma_kept_none(items, removed, n);
        assert(items.take(n) =~= items);
    }
}

proof fn lemma_kept_none(items: Seq<Point>, removed: Seq<usize>, n: int)
    requires
        items.len() <= n,
        forall|x: usize| removed.contains(x) ==> n <= x,
    ensures
        crate::removal::kept(items, removed) == items,
    decreases items.len(),
{
    if items.len() > 0 {
        let prior = items.drop_last();
        lemma_kept_none(prior, removed, n);
        assert(!removed.contains((items.len() - 1) as usize));
        assert(prior.push(items.last()) =~= items);
    }
}

proof fn lemma_nothing_below(removed: Seq<usize>, n: usize, v: nat)
    requires
        v <= n,
        forall|x: usize| removed.contains(x) ==> n <= x,
    ensures
        crate::removal::gone_below(removed, v) == 0,
    decreases v,
{
    if v > 0 {
        lemma_nothing_below(removed, n, (v - 1) as nat);
    }
}

proof fn lemma_kept_list(list: Seq<usize>, removed: Seq<usize>, n: usize)
    requires
        forall|i: int| 0 <= i < list.len() ==> #[trigger] list[i] < n,
        forall|x: usize| removed.contains(x) ==> n <= x,
    ensures
        crate::chains::kept_selection(list, removed) == list,
    decreases list.len(),
{
    if list.len() > 0 {
        let prior = list.drop_last();
        lemma_kept_list(prior, removed, n);
        let v = list.last();
        assert(list[list.len() - 1] == v);
        lemma_nothing_below(removed, n, v as nat);
        assert(crate::removal::landing(removed, v) == v);
        assert(prior.push(v) =~= list);
    }
}

proof fn lemma_kept_dropped(list: Seq<usize>, extra: Seq<usize>, removed: Seq<usize>)
    requires
        forall|i: int| 0 <= i < extra.len() ==> removed.contains(#[trigger] extra[i]),
    ensures
        crate::chains::kept_selection(list + extra, removed) == crate::chains::kept_selection(list, removed),
    decreases extra.len(),
{
    if extra.len() > 0 {
        let prior = extra.drop_last();
        lemma_kept_dropped(list, prior, removed);
        assert((list + extra).drop_last() =~= list + prior);
        assert((list + extra).last() == extra[extra.len() - 1]);
    } else {
        assert(list + extra =~= list);
    }
}

/// Decimation is the reverse of one subdivision: once the edges between the vertices of
/// `list` are split, decimating `list` together with the new vertices removes exactly the
/// new vertices, so the vertices are those before the subdivision, the same vertices are
/// joined by edges, and the selection is `list` again. It holds unless two vertices of `list`, each interior, are joined by two
/// edges and nothing else.
pub proof fn lemma_decimate_undoes_subdivide(mesh: MeshView, list: Seq<usize>, points: Seq<Point>)
    requires
        subdivision_ready(mesh, list, points),
        no_pair_loop(crate::chains::neighbour_lists(mesh), list),
    ensures
        ({
            let sub = subdivided(mesh, target_edges(mesh.edges, list), points);
            let added = index_range(mesh.vertices.len() as int, points.len() as int);
            let removed = crate::chains::decimation(sub, list + added);
            let left = crate::removal::without(crate::merging::bridged(sub, removed), removed);
            &&& forall|v: usize| removed.contains(v) <==> added.contains(v)
            &&& crate::sync::sync_result(left, false).vertices == mesh.vertices
            &&& forall|x: usize, y: usize| crate::graph::adjacent(crate::sync::sync_result(left, false).edges, x, y)
                <==> crate::graph::adjacent(mesh.edges, x, y)
            &&& crate::chains::kept_selection(list + added, removed) == list
        }),
{
    let targets = target_edges(mesh.edges, list);
    let sub = subdivided(mesh, targets, points);
    let n = mesh.vertices.len() as usize;
    let count = points.len() as int;
    let added = index_range(n as int, count);
    let sel = list + added;
    let nb = crate::chains::neighbour_lists(sub);
    lemma_targets(mesh.edges, list);
    lemma_split_shape(mesh, targets, points);
    lemma_split_halving(mesh, list, points);
    lemma_halving(nb, sel, n, list.len() as int);
    let removed = crate::chains::decimation(sub, sel);
    assert(nb.len() == sub.vertices.len());
    assert forall|v: usize| removed.contains(v) <==> added.contains(v) by {
        if n <= v < n + count {
            assert(added[v - n] == v);
        }
        if added.contains(v) {
            let k = choose|k: int| 0 <= k < added.len() && added[k] == v;
        }
    }
    assert forall|x: usize| removed.contains(x) <==> n <= x < sub.vertices.len() by {
        if removed.contains(x) {
            assert(added.contains(x));
            let k = choose|k: int| 0 <= k < added.len() && added[k] == x;
        }
    }
    if removed.len() > 0 {
        lemma_kept_prefix_upto(sub.vertices, removed, n as int, sub.vertices.len() as int);
    } else {
        if count > 0 {
            assert(added[0] == n);
            assert(removed.contains(n));
        }
        assert(sub.vertices.len() == n);
        assert(sub.vertices =~= mesh.vertices) by {
            assert(sub.vertices.take(n as int) =~= sub.vertices);
        }
    }
    lemma_kept_dropped(list, added, removed);
    lemma_kept_list(list, removed, n);
    lemma_edges_back(mesh, list, points, removed);
}

} // verus!

verus! {

/// Edge `e` touches `v`.
pub open spec fn touches(e: Seq<usize>, v: usize) -> bool {
    e[0] == v || e[1] == v
}

proof fn lemma_off_edges(edges: Seq<Seq<usize>>, v: usize)
    ensures
        forall|i: int| 0 <= i < crate::merging::edges_off(edges, v).len() ==> exists|j: int| 0 <= j < edges.len()
            && #[trigger] crate::merging::edges_off(edges, v)[i] == edges[j] && !touches(edges[j], v),
        forall|j: int| 0 <= j < edges.len() && !touches(edges[j], v)
            ==> #[trigger] crate::merging::edges_off(edges, v).contains(edges[j]),
    decreases edges.len(),
{
    if edges.len() > 0 {
        let prior = edges.drop_last();
        lemma_off_edges(prior, v);
        let off = crate::merging::edges_off(edges, v);
        let was = crate::merging::edges_off(prior, v);
        assert forall|i: int| 0 <= i < off.len() implies exists|j: int| 0 <= j < edges.len()
            && #[trigger] off[i] == edges[j] && !touches(edges[j], v) by {
            if i < was.len() {
                assert(off[i] == was[i]);
                let j = choose|j: int| 0 <= j < prior.len() && was[i] == prior[j] && !touches(prior[j], v);
                assert(edges[j] == prior[j]);
            } else {
                assert(off[i] == edges[edges.len() - 1]);
            }
        }
        assert forall|j: int| 0 <= j < edges.len() && !touches(edges[j], v) implies #[trigger] off.contains(edges[j]) by {
            if j < prior.len() {
                assert(prior[j] == edges[j]);
                assert(was.contains(prior[j]));
                let i = choose|i: int| 0 <= i < was.len() && was[i] == prior[j];
                assert(off[i] == was[i]);
            } else {
                assert(off[off.len() - 1] == edges[j]);
            }
        }
    }
}

/// Adjacency away from `v` survives taking away the edges of `v`.
proof fn lemma_off_adjacent(edges: Seq<Seq<usize>>, v: usize, x: usize, y: usize)
    requires
        x != v,
        y != v,
    ensures
        crate::graph::adjacent(crate::merging::edges_off(edges, v), x, y) <==> crate::graph::adjacent(edges, x, y),
{
    lemma_off_edges(edges, v);
    let off = crate::merging::edges_off(edges, v);
    if crate::graph::adjacent(off, x, y) {
        let i = choose|i: int| 0 <= i < off.len() && ((off[i][0] == x && off[i][1] == y) || (off[i][0] == y && off[i][1] == x));
        let j = choose|j: int| 0 <= j < edges.len() && off[i] == edges[j] && !touches(edges[j], v);
    }
    if crate::graph::adjacent(edges, x, y) {
        let j = choose|j: int| 0 <= j < edges.len() && ((edges[j][0] == x && edges[j][1] == y) || (edges[j][0] == y && edges[j][1] == x));
        assert(off.contains(edges[j]));
        let i = choose|i: int| 0 <= i < off.len() && off[i] == edges[j];
    }
}

/// The other ends at `m` stay when the edges of `v` go, if no edge touches both.
proof fn lemma_off_ends(edges: Seq<Seq<usize>>, v: usize, m: usize)
    requires
        v != m,
        forall|i: int| 0 <= i < edges.len() ==> !(touches(#[trigger] edges[i], v) && touches(edges[i], m)),
    ensures
        crate::merging::other_ends(crate::merging::edges_off(edges, v), m) == crate::merging::other_ends(edges, m),
    decreases edges.len(),
{
    if edges.len() > 0 {
        let prior = edges.drop_last();
        assert forall|i: int| 0 <= i < prior.len() implies !(touches(#[trigger] prior[i], v) && touches(prior[i], m)) by {
            assert(prior[i] == edges[i]);
        }
        lemma_off_ends(prior, v, m);
        let e = edges.last();
        assert(edges[edges.len() - 1] == e);
        let off = crate::merging::edges_off(prior, v);
        if !touches(e, v) {
            assert(off.push(e).drop_last() =~= off);
        }
    }
}

/// Without an edge at `v`, taking its edges away changes nothing, and it has no ends.
proof fn lemma_untouched(edges: Seq<Seq<usize>>, v: usize)
    requires
        forall|i: int| 0 <= i < edges.len() ==> !touches(#[trigger] edges[i], v),
    ensures
        crate::merging::edges_off(edges, v) == edges,
        crate::merging::other_ends(edges, v).len() == 0,
    decreases edges.len(),
{
    if edges.len() > 0 {
        let prior = edges.drop_last();
        assert forall|i: int| 0 <= i < prior.len() implies !touches(#[trigger] prior[i], v) by {
            assert(prior[i] == edges[i]);
        }
        lemma_untouched(prior, v);
        assert(!touches(edges[edges.len() - 1], v));
        assert(prior.push(edges.last()) =~= edges);
    }
}

/// Without a loop at `m`, its other ends are its neighbour list.
proof fn lemma_ends_list(edges: Seq<Seq<usize>>, m: usize)
    requires
        forall|i: int| 0 <= i < edges.len() ==> !(#[trigger] edges[i][0] == m && edges[i][1] == m),
    ensures
        crate::merging::other_ends(edges, m) == neighbour_list(edges, m),
    decreases edges.len(),
{
    if edges.len() > 0 {
        let prior = edges.drop_last();
        assert forall|i: int| 0 <= i < prior.len() implies !(#[trigger] prior[i][0] == m && prior[i][1] == m) by {
            assert(prior[i] == edges[i]);
        }
        lemma_ends_list(prior, m);
        assert(edges[edges.len() - 1] == edges.last());
    }
}

/// Removing vertices that no edge touches, all from `n` on, keeps the edges among the
/// vertices below `n` as they are.
proof fn lemma_removed_none(edges: Seq<Seq<usize>>, removed: Seq<usize>, n: usize)
    requires
        forall|i: int| 0 <= i < edges.len() ==> #[trigger] edges[i].len() == 2 && edges[i][0] < n && edges[i][1] < n,
        forall|x: usize| removed.contains(x) ==> n <= x,
    ensures
        crate::removal::removed_edges(edges, removed) == edges,
    decreases edges.len(),
{
    if edges.len() > 0 {
        let prior = edges.drop_last();
        assert forall|i: int| 0 <= i < prior.len() implies #[trigger] prior[i].len() == 2 && prior[i][0] < n && prior[i][1] < n by {
            assert(prior[i] == edges[i]);
        }
        lemma_removed_none(prior, removed, n);
        let e = edges.last();
        assert(edges[edges.len() - 1] == e);
        lemma_nothing_below(removed, n, e[0] as nat);
        lemma_nothing_below(removed, n, e[1] as nat);
        assert(seq![crate::removal::landing(removed, e[0]), crate::removal::landing(removed, e[1])] =~= e);
        assert(prior.push(e) =~= edges);
    }
}

} // verus!

verus! {

/// End `side` of the edge that the `k`-th new vertex split.
pub open spec fn split_end(e: Seq<Seq<usize>>, targets: Seq<usize>, k: int, side: int) -> usize {
    e[targets[k] as int][side]
}

/// An edge part way through dissolving the new vertices of `done`: it joins two earlier
/// vertices that the mesh before the subdivision joined, or a new vertex not dissolved yet
/// and an end of the edge it split.
pub open spec fn edge_in_progress(edge: Seq<usize>, e: Seq<Seq<usize>>, targets: Seq<usize>, n: usize, done: Seq<usize>) -> bool {
    &&& edge.len() == 2
    &&& {
        ||| edge[0] < n && edge[1] < n && crate::graph::adjacent(e, edge[0], edge[1])
        ||| n <= edge[0] < n + targets.len() && !done.contains(edge[0]) && edge[1] < n
            && (edge[1] == split_end(e, targets, edge[0] - n, 0) || edge[1] == split_end(e, targets, edge[0] - n, 1))
        ||| n <= edge[1] < n + targets.len() && !done.contains(edge[1]) && edge[0] < n
            && (edge[0] == split_end(e, targets, edge[1] - n, 0) || edge[0] == split_end(e, targets, edge[1] - n, 1))
    }
}

/// The edges part way through dissolving the new vertices of `done` after a subdivision.
pub open spec fn dissolving(d: Seq<Seq<usize>>, e: Seq<Seq<usize>>, targets: Seq<usize>, n: usize, done: Seq<usize>) -> bool {
    &&& forall|i: int| 0 <= i < d.len() ==> edge_in_progress(#[trigger] d[i], e, targets, n, done)
    &&& forall|k: int| 0 <= k < targets.len() && !done.contains((n + k) as usize) ==> {
        let ends = #[trigger] crate::merging::other_ends(d, (n + k) as usize);
        &&& ends.len() == 2
        &&& ends[0] != ends[1]
        &&& ends[0] == split_end(e, targets, k, 0) || ends[0] == split_end(e, targets, k, 1)
        &&& ends[1] == split_end(e, targets, k, 0) || ends[1] == split_end(e, targets, k, 1)
    }
    &&& forall|k: int| 0 <= k < targets.len() && done.contains((n + k) as usize)
        ==> crate::graph::adjacent(d, #[trigger] split_end(e, targets, k, 0), split_end(e, targets, k, 1))
    &&& forall|x: usize, y: usize| x < n && y < n && #[trigger] crate::graph::adjacent(e, x, y) ==> crate::graph::adjacent(d, x, y)
        || exists|k: int| 0 <= k < targets.len() && !done.contains((n + k) as usize)
            && ((x == split_end(e, targets, k, 0) && y == split_end(e, targets, k, 1))
                || (x == split_end(e, targets, k, 1) && y == split_end(e, targets, k, 0)))
}

/// Dissolving one more new vertex keeps the edges in progress.
#[verifier::rlimit(60)]
proof fn lemma_dissolve_one(d: Seq<Seq<usize>>, e: Seq<Seq<usize>>, targets: Seq<usize>, n: usize, done: Seq<usize>, v: usize)
    requires
        dissolving(d, e, targets, n, done),
        n <= v < n + targets.len(),
        n + targets.len() <= usize::MAX,
        forall|k: int| 0 <= k < targets.len() ==> #[trigger] split_end(e, targets, k, 0) < n && split_end(e, targets, k, 1) < n,
        forall|k: int| 0 <= k < targets.len() ==> crate::graph::adjacent(e, #[trigger] split_end(e, targets, k, 0), split_end(e, targets, k, 1)),
    ensures
        dissolving(crate::merging::dissolve_step(d, v), e, targets, n, done.push(v)),
{
    let after = done.push(v);
    let rest = crate::merging::edges_off(d, v);
    let ends = crate::merging::other_ends(d, v);
    let next = crate::merging::dissolve_step(d, v);
    let kv = v - n;
    assert forall|x: usize| #[trigger] after.contains(x) <==> done.contains(x) || x == v by {
        if after.contains(x) && !done.contains(x) {
            let i = choose|i: int| 0 <= i < after.len() && after[i] == x;
            if i < done.len() {
                assert(done[i] == after[i]);
            }
        }
        if done.contains(x) {
            let i = choose|i: int| 0 <= i < done.len() && done[i] == x;
            assert(after[i] == x);
        }
        if x == v {
            assert(after[done.len() as int] == v);
        }
    }
    lemma_off_edges(d, v);
    if done.contains(v) {
        assert forall|i: int| 0 <= i < d.len() implies !touches(#[trigger] d[i], v) by {
            assert(edge_in_progress(d[i], e, targets, n, done));
        }
        lemma_untouched(d, v);
        assert(next == d);
    } else {
        let (a, b) = (split_end(e, targets, kv, 0), split_end(e, targets, kv, 1));
        assert(ends == crate::merging::other_ends(d, (n + kv) as usize));
        assert(ends.len() == 2);
        assert(a < n && b < n);
        // Every edge left or added is in progress for the larger set.
        assert forall|i: int| 0 <= i < next.len() implies edge_in_progress(#[trigger] next[i], e, targets, n, after) by {
            if i < rest.len() {
                assert(next[i] == rest[i]);
                let j = choose|j: int| 0 <= j < d.len() && rest[i] == d[j] && !touches(d[j], v);
                assert(edge_in_progress(d[j], e, targets, n, done));
            } else {
                assert(next[i] == seq![ends[0], ends[1]]);
                if ends[0] == a {
                    assert(ends[1] == b);
                } else {
                    assert(ends[0] == b && ends[1] == a);
                    let (x, y) = (a, b);
                    assert(crate::graph::adjacent(e, x, y));
                    let w = choose|w: int| 0 <= w < e.len() && ((e[w][0] == x && e[w][1] == y) || (e[w][0] == y && e[w][1] == x));
                    assert(crate::graph::adjacent(e, y, x));
                }
            }
        }
        // The other new vertices keep their ends.
        assert forall|k: int| 0 <= k < targets.len() && !after.contains((n + k) as usize) implies {
            let ends = #[trigger] crate::merging::other_ends(next, (n + k) as usize);
            &&& ends.len() == 2
            &&& ends[0] != ends[1]
            &&& ends[0] == split_end(e, targets, k, 0) || ends[0] == split_end(e, targets, k, 1)
            &&& ends[1] == split_end(e, targets, k, 0) || ends[1] == split_end(e, targets, k, 1)
        } by {
            let m = (n + k) as usize;
            assert(!done.contains(m) && m != v);
            assert forall|i: int| 0 <= i < d.len() implies !(touches(#[trigger] d[i], v) && touches(d[i], m)) by {
                assert(edge_in_progress(d[i], e, targets, n, done));
            }
            lemma_off_ends(d, v, m);
            if next != rest {
                assert(next == rest.push(seq![ends[0], ends[1]]));
                assert(next.drop_last() =~= rest);
                assert(next.last() == seq![ends[0], ends[1]]);
            }
        }
        // The vertex dissolved now has its ends joined.
        assert(crate::graph::adjacent(next, a, b)) by {
            if next == rest {
                assert(crate::graph::adjacent(rest, ends[0], ends[1]));
                let i = choose|i: int| 0 <= i < rest.len() && ((rest[i][0] == ends[0] && rest[i][1] == ends[1])
                    || (rest[i][0] == ends[1] && rest[i][1] == ends[0]));
            } else {
                assert(next[rest.len() as int] == seq![ends[0], ends[1]]);
            }
        }
        assert forall|x: usize, y: usize| x < n && y < n && crate::graph::adjacent(d, x, y)
            implies crate::graph::adjacent(next, x, y) by {
            lemma_off_adjacent(d, v, x, y);
            let i = choose|i: int| 0 <= i < rest.len() && ((rest[i][0] == x && rest[i][1] == y) || (rest[i][0] == y && rest[i][1] == x));
            if next != rest {
                assert(next[i] == rest[i]);
            }
        }
        assert forall|k: int| 0 <= k < targets.len() && after.contains((n + k) as usize)
            implies crate::graph::adjacent(next, #[trigger] split_end(e, targets, k, 0), split_end(e, targets, k, 1)) by {
            if (n + k) as usize != v {
                assert(done.contains((n + k) as usize));
                assert(crate::graph::adjacent(d, split_end(e, targets, k, 0), split_end(e, targets, k, 1)));
            }
        }
        assert forall|x: usize, y: usize| x < n && y < n && #[trigger] crate::graph::adjacent(e, x, y) implies crate::graph::adjacent(next, x, y)
            || exists|k: int| 0 <= k < targets.len() && !after.contains((n + k) as usize)
                && ((x == split_end(e, targets, k, 0) && y == split_end(e, targets, k, 1))
                    || (x == split_end(e, targets, k, 1) && y == split_end(e, targets, k, 0))) by {
            if !crate::graph::adjacent(d, x, y) {
                let k = choose|k: int| 0 <= k < targets.len() && !done.contains((n + k) as usize)
                    && ((x == split_end(e, targets, k, 0) && y == split_end(e, targets, k, 1))
                        || (x == split_end(e, targets, k, 1) && y == split_end(e, targets, k, 0)));
                if (n + k) as usize == v {
                    assert(k == kv);
                    if x == b {
                        let i = choose|i: int| 0 <= i < next.len() && ((next[i][0] == a && next[i][1] == b) || (next[i][0] == b && next[i][1] == a));
                    }
                } else {
                    assert(!after.contains((n + k) as usize));
                }
            }
        }
    }
}

} // verus!

verus! {

/// Right after a subdivision, with nothing dissolved yet, the edges are in progress.
proof fn lemma_dissolve_start(mesh: MeshView, list: Seq<usize>, points: Seq<Point>)
    requires
        subdivision_ready(mesh, list, points),
        no_pair_loop(crate::chains::neighbour_lists(mesh), list),
    ensures
        dissolving(subdivided(mesh, target_edges(mesh.edges, list), points).edges, mesh.edges,
            target_edges(mesh.edges, list), mesh.vertices.len() as usize, Seq::empty()),
{
    let targets = target_edges(mesh.edges, list);
    let sub = subdivided(mesh, targets, points);
    let s = sub.edges;
    let e = mesh.edges;
    let n = mesh.vertices.len() as usize;
    let m = e.len();
    let none = Seq::<usize>::empty();
    lemma_targets(e, list);
    lemma_split_shape(mesh, targets, points);
    lemma_split_degrees(mesh, targets, points);
    lemma_split_halving(mesh, list, points);
    crate::refine::lemma_subdivided(mesh, targets, points);
    let nb = crate::chains::neighbour_lists(sub);
    let sel = list + index_range(n as int, points.len() as int);
    assert forall|i: int| 0 <= i < s.len() implies edge_in_progress(#[trigger] s[i], e, targets, n, none) by {
        if i >= m {
            let k = i - m;
            assert(s[m + k] == seq![(n + k) as usize, e[targets[k] as int][1]]);
            assert(e[targets[k] as int].len() == 2);
        } else if targets.contains(i as usize) {
            let k = choose|k: int| 0 <= k < targets.len() && targets[k] == i as usize;
            assert(s[targets[k] as int] == seq![e[targets[k] as int][0], (n + k) as usize]);
            assert(e[targets[k] as int].len() == 2);
        } else {
            assert(s[i] == e[i]);
            assert(e[i].len() == 2);
            assert(crate::graph::adjacent(e, e[i][0], e[i][1]));
        }
    }
    assert forall|k: int| 0 <= k < targets.len() && !none.contains((n + k) as usize) implies {
        let ends = #[trigger] crate::merging::other_ends(s, (n + k) as usize);
        &&& ends.len() == 2
        &&& ends[0] != ends[1]
        &&& ends[0] == split_end(e, targets, k, 0) || ends[0] == split_end(e, targets, k, 1)
        &&& ends[1] == split_end(e, targets, k, 0) || ends[1] == split_end(e, targets, k, 1)
    } by {
        let w = (n + k) as usize;
        assert forall|i: int| 0 <= i < s.len() implies !(#[trigger] s[i][0] == w && s[i][1] == w) by {
            assert(edge_in_progress(s[i], e, targets, n, none));
        }
        lemma_ends_list(s, w);
        assert(nb[w as int] == neighbour_list(s, w));
        assert(is_interior(nb, sel, w));
        assert(nb[w as int][0] != nb[w as int][1]);
        assert forall|j: int| 0 <= j < 2 implies #[trigger] neighbour_list(s, w)[j] == split_end(e, targets, k, 0)
            || neighbour_list(s, w)[j] == split_end(e, targets, k, 1) by {
            let y = neighbour_list(s, w)[j];
            assert(neighbour_list(s, w).contains(y));
            crate::graph::lemma_neighbour_list(s, w, y);
            lemma_split_adjacent(mesh, list, points, w, y);
        }
    }
    assert forall|x: usize, y: usize| x < n && y < n && #[trigger] crate::graph::adjacent(e, x, y) implies crate::graph::adjacent(s, x, y)
        || exists|k: int| 0 <= k < targets.len() && !none.contains((n + k) as usize)
            && ((x == split_end(e, targets, k, 0) && y == split_end(e, targets, k, 1))
                || (x == split_end(e, targets, k, 1) && y == split_end(e, targets, k, 0))) by {
        let i = choose|i: int| 0 <= i < e.len() && ((e[i][0] == x && e[i][1] == y) || (e[i][0] == y && e[i][1] == x));
        if targets.contains(i as usize) {
            let k = choose|k: int| 0 <= k < targets.len() && targets[k] == i as usize;
            assert(!none.contains((n + k) as usize));
            assert(split_end(e, targets, k, 0) == e[i][0] && split_end(e, targets, k, 1) == e[i][1]);
        } else {
            assert(s[i] == e[i]);
            assert(crate::graph::adjacent(s, x, y));
        }
    }
}

/// Dissolving the first `j` vertices of `removed`, all of them new ones, keeps the edges
/// in progress.
proof fn lemma_dissolve_prefix(s: Seq<Seq<usize>>, e: Seq<Seq<usize>>, targets: Seq<usize>, n: usize, removed: Seq<usize>, j: int)
    requires
        dissolving(s, e, targets, n, Seq::empty()),
        0 <= j <= removed.len(),
        forall|i: int| 0 <= i < removed.len() ==> n <= #[trigger] removed[i] < n + targets.len(),
        n + targets.len() <= usize::MAX,
        forall|k: int| 0 <= k < targets.len() ==> #[trigger] split_end(e, targets, k, 0) < n && split_end(e, targets, k, 1) < n,
        forall|k: int| 0 <= k < targets.len() ==> crate::graph::adjacent(e, #[trigger] split_end(e, targets, k, 0), split_end(e, targets, k, 1)),
    ensures
        dissolving(crate::merging::dissolved_edges(s, removed.take(j)), e, targets, n, removed.take(j)),
    decreases j,
{
    if j == 0 {
        assert(removed.take(0) =~= Seq::<usize>::empty());
    } else {
        lemma_dissolve_prefix(s, e, targets, n, removed, j - 1);
        let now = removed.take(j);
        assert(now.drop_last() =~= removed.take(j - 1));
        assert(now.last() == removed[j - 1]);
        lemma_dissolve_one(crate::merging::dissolved_edges(s, removed.take(j - 1)), e, targets, n, removed.take(j - 1), removed[j - 1]);
        assert(removed.take(j - 1).push(removed[j - 1]) =~= now);
    }
}

} // verus!

verus! {

/// Once every new vertex is dissolved and gone, two vertices are joined exactly when the
/// mesh before the subdivision joined them.
proof fn lemma_edges_back(mesh: MeshView, list: Seq<usize>, points: Seq<Point>, removed: Seq<usize>)
    requires
        subdivision_ready(mesh, list, points),
        no_pair_loop(crate::chains::neighbour_lists(mesh), list),
        forall|v: usize| removed.contains(v) <==> mesh.vertices.len() <= v < mesh.vertices.len() + points.len(),
    ensures
        ({
            let sub = subdivided(mesh, target_edges(mesh.edges, list), points);
            let left = crate::removal::without(crate::merging::bridged(sub, removed), removed);
            forall|x: usize, y: usize| crate::graph::adjacent(left.edges, x, y) <==> crate::graph::adjacent(mesh.edges, x, y)
        }),
{
    let targets = target_edges(mesh.edges, list);
    let sub = subdivided(mesh, targets, points);
    let e = mesh.edges;
    let n = mesh.vertices.len() as usize;
    let left = crate::removal::without(crate::merging::bridged(sub, removed), removed);
    lemma_targets(e, list);
    lemma_split_shape(mesh, targets, points);
    if removed.len() == 0 {
        if points.len() > 0 {
            assert(removed.contains(n));
        }
        assert(sub.edges =~= e) by {
            assert forall|i: int| 0 <= i < e.len() implies sub.edges[i] == e[i] by {
                assert(!targets.contains(i as usize));
            }
        }
        assert(left.edges == sub.edges);
    } else {
        assert forall|k: int| 0 <= k < targets.len() implies #[trigger] split_end(e, targets, k, 0) < n && split_end(e, targets, k, 1) < n by {
            assert(e[targets[k] as int].len() == 2);
        }
        assert forall|k: int| 0 <= k < targets.len() implies crate::graph::adjacent(e, #[trigger] split_end(e, targets, k, 0), split_end(e, targets, k, 1)) by {
            let i = targets[k] as int;
            assert(e[i].len() == 2);
        }
        assert forall|i: int| 0 <= i < removed.len() implies n <= #[trigger] removed[i] < n + targets.len() by {
            assert(removed.contains(removed[i]));
        }
        lemma_dissolve_start(mesh, list, points);
        lemma_dissolve_prefix(sub.edges, e, targets, n, removed, removed.len() as int);
        assert(removed.take(removed.len() as int) =~= removed);
        let d = crate::merging::dissolved_edges(sub.edges, removed);
        assert(dissolving(d, e, targets, n, removed));
        assert forall|i: int| 0 <= i < d.len() implies #[trigger] d[i].len() == 2 && d[i][0] < n && d[i][1] < n
            && crate::graph::adjacent(e, d[i][0], d[i][1]) by {
            assert(edge_in_progress(d[i], e, targets, n, removed));
            if n <= d[i][0] {
                assert(removed.contains(d[i][0]));
            }
            if n <= d[i][1] {
                assert(removed.contains(d[i][1]));
            }
        }
        assert forall|x: usize| removed.contains(x) implies n <= x by {}
        lemma_removed_none(d, removed, n);
        assert(left.edges == d);
        assert forall|x: usize, y: usize| crate::graph::adjacent(d, x, y) <==> crate::graph::adjacent(e, x, y) by {
            if crate::graph::adjacent(d, x, y) {
                let i = choose|i: int| 0 <= i < d.len() && ((d[i][0] == x && d[i][1] == y) || (d[i][0] == y && d[i][1] == x));
                assert(crate::graph::adjacent(e, d[i][0], d[i][1]));
                let w = choose|w: int| 0 <= w < e.len() && ((e[w][0] == d[i][0] && e[w][1] == d[i][1]) || (e[w][0] == d[i][1] && e[w][1] == d[i][0]));
            }
            if crate::graph::adjacent(e, x, y) {
                let w = choose|w: int| 0 <= w < e.len() && ((e[w][0] == x && e[w][1] == y) || (e[w][0] == y && e[w][1] == x));
                assert(e[w].len() == 2 && e[w][0] < n && e[w][1] < n);
                if !crate::graph::adjacent(d, x, y) {
                    let k = choose|k: int| 0 <= k < targets.len() && !removed.contains((n + k) as usize)
                        && ((x == split_end(e, targets, k, 0) && y == split_end(e, targets, k, 1))
                            || (x == split_end(e, targets, k, 1) && y == split_end(e, targets, k, 0)));
                    assert(removed.contains((n + k) as usize));
                }
            }
        }
    }
}

} // verus!

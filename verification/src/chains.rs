use crate::faces::listed;
use crate::graph::neighbour_list;
use crate::mesh::{Mesh, MeshView};
use crate::removal::without;
use crate::sync::synced;
use vstd::prelude::*;

verus! {

broadcast use vstd::seq_lib::group_seq_properties;

/// Vertex `v` lies inside a chain of selected vertices: it is selected and has exactly
/// two neighbours, both selected.
pub open spec fn is_interior(nb: Seq<Seq<usize>>, sel: Seq<usize>, v: usize) -> bool {
    &&& sel.contains(v)
    &&& v < nb.len()
    &&& nb[v as int].len() == 2
    &&& sel.contains(nb[v as int][0])
    &&& sel.contains(nb[v as int][1])
}

/// The neighbour of `current` that a walk coming from `prev` goes on to: the first one
/// that is not `prev`.
pub open spec fn onward(nb: Seq<Seq<usize>>, prev: usize, current: usize) -> usize {
    if nb[current as int][0] != prev { nb[current as int][0] } else { nb[current as int][1] }
}

/// How many vertices are not visited yet.
pub open spec fn unvisited(visited: Seq<bool>) -> nat
    decreases visited.len(),
{
    if visited.len() == 0 {
        0
    } else {
        unvisited(visited.drop_last()) + if visited.last() { 0nat } else { 1nat }
    }
}

/// A walk along a chain from `prev` into `current`: the interior vertices it passes, each
/// not visited before, where it stops, and what is visited then. `fuel` bounds its length.
pub open spec fn walk(nb: Seq<Seq<usize>>, sel: Seq<usize>, visited: Seq<bool>, prev: usize, current: usize, fuel: nat)
    -> (Seq<usize>, usize, Seq<bool>)
    decreases fuel,
{
    if fuel == 0 || !is_interior(nb, sel, current) || current >= visited.len() || visited[current as int] {
        (Seq::empty(), current, visited)
    } else {
        let (rest, end, after) = walk(nb, sel, visited.update(current as int, true), current, onward(nb, prev, current), (fuel - 1) as nat);
        (seq![current] + rest, end, after)
    }
}

/// The walks from an anchor into each of its neighbours listed from position `k` on.
pub open spec fn anchor_walks(nb: Seq<Seq<usize>>, sel: Seq<usize>, visited: Seq<bool>, anchor: usize, k: nat, fuel: nat)
    -> (Seq<(Seq<usize>, usize, usize)>, Seq<bool>)
    decreases nb[anchor as int].len() - k,
{
    if k >= nb[anchor as int].len() {
        (Seq::empty(), visited)
    } else {
        let (chain, end, after) = walk(nb, sel, visited, anchor, nb[anchor as int][k as int], fuel);
        let (rest, last) = anchor_walks(nb, sel, after, anchor, k + 1, fuel);
        (seq![(chain, anchor, end)] + rest, last)
    }
}

/// The walks from each selected vertex from position `i` of `sel` on that is not
/// interior, into each of its neighbours, in order.
pub open spec fn anchor_pass(nb: Seq<Seq<usize>>, sel: Seq<usize>, visited: Seq<bool>, i: nat, fuel: nat)
    -> (Seq<(Seq<usize>, usize, usize)>, Seq<bool>)
    decreases sel.len() - i,
{
    if i >= sel.len() {
        (Seq::empty(), visited)
    } else {
        let v = sel[i as int];
        let (now, after) = if !is_interior(nb, sel, v) && v < nb.len() {
            anchor_walks(nb, sel, visited, v, 0, fuel)
        } else {
            (Seq::empty(), visited)
        };
        let (rest, last) = anchor_pass(nb, sel, after, i + 1, fuel);
        (now + rest, last)
    }
}

/// The walks around the closed loops: from each interior vertex from position `i` of
/// `sel` on, coming from its first neighbour; a vertex reached before gives an empty walk.
pub open spec fn loop_pass(nb: Seq<Seq<usize>>, sel: Seq<usize>, visited: Seq<bool>, i: nat, fuel: nat)
    -> (Seq<(Seq<usize>, usize, usize)>, Seq<bool>)
    decreases sel.len() - i,
{
    if i >= sel.len() {
        (Seq::empty(), visited)
    } else {
        let v = sel[i as int];
        let (now, after) = if is_interior(nb, sel, v) {
            let (chain, end, after) = walk(nb, sel, visited, nb[v as int][0], v, fuel);
            (seq![(chain, nb[v as int][0], end)], after)
        } else {
            (Seq::empty(), visited)
        };
        let (rest, last) = loop_pass(nb, sel, after, i + 1, fuel);
        (now + rest, last)
    }
}

/// The chains of the selection, each with the vertex it comes from and the vertex where
/// it stops: first the walks from the selected vertices that are not interior, then the
/// walks around closed loops of interior vertices; no vertex is walked twice.
pub open spec fn chains_of(nb: Seq<Seq<usize>>, sel: Seq<usize>) -> Seq<(Seq<usize>, usize, usize)> {
    let fresh = Seq::new(nb.len(), |v: int| false);
    let (first, after) = anchor_pass(nb, sel, fresh, 0, nb.len());
    first + loop_pass(nb, sel, after, 0, nb.len()).0
}

} // verus!

verus! {

/// The neighbour lists name only vertices of the graph.
pub open spec fn simple_lists(nb: Seq<Seq<usize>>) -> bool {
    forall|v: int, j: int| 0 <= v < nb.len() && 0 <= j < nb[v].len() ==> #[trigger] nb[v][j] < nb.len()
}

/// No interior vertex has its two neighbours the same vertex (two edges to it).
pub open spec fn no_double(nb: Seq<Seq<usize>>, sel: Seq<usize>) -> bool {
    forall|v: usize| #[trigger] is_interior(nb, sel, v) ==> nb[v as int][0] != nb[v as int][1]
}

pub(crate) proof fn lemma_unvisited(visited: Seq<bool>, c: int)
    requires
        0 <= c < visited.len(),
        !visited[c],
    ensures
        unvisited(visited) >= 1,
        unvisited(visited.update(c, true)) == unvisited(visited) - 1,
    decreases visited.len(),
{
    let last = visited.len() - 1;
    if c < last {
        lemma_unvisited(visited.drop_last(), c);
        assert(visited.update(c, true).drop_last() =~= visited.drop_last().update(c, true));
    } else {
        assert(visited.update(c, true).drop_last() =~= visited.drop_last());
    }
}

/// What a walk visits: its vertices are distinct, interior, none visited before, all
/// visited after, and nothing else changes.
pub(crate) proof fn lemma_walk(nb: Seq<Seq<usize>>, sel: Seq<usize>, visited: Seq<bool>, prev: usize, current: usize, fuel: nat)
    requires
        visited.len() <= usize::MAX,
    ensures
        walk(nb, sel, visited, prev, current, fuel).2.len() == visited.len(),
        forall|i: int, j: int| 0 <= i < j < walk(nb, sel, visited, prev, current, fuel).0.len()
            ==> walk(nb, sel, visited, prev, current, fuel).0[i] != walk(nb, sel, visited, prev, current, fuel).0[j],
        forall|i: int| 0 <= i < walk(nb, sel, visited, prev, current, fuel).0.len()
            ==> #[trigger] walk(nb, sel, visited, prev, current, fuel).0[i] < visited.len(),
        forall|i: int| 0 <= i < walk(nb, sel, visited, prev, current, fuel).0.len()
            ==> !visited[#[trigger] walk(nb, sel, visited, prev, current, fuel).0[i] as int],
        forall|i: int| 0 <= i < walk(nb, sel, visited, prev, current, fuel).0.len()
            ==> walk(nb, sel, visited, prev, current, fuel).2[#[trigger] walk(nb, sel, visited, prev, current, fuel).0[i] as int],
        forall|i: int| 0 <= i < walk(nb, sel, visited, prev, current, fuel).0.len()
            ==> is_interior(nb, sel, #[trigger] walk(nb, sel, visited, prev, current, fuel).0[i]),
        forall|x: int| 0 <= x < visited.len() && #[trigger] walk(nb, sel, visited, prev, current, fuel).2[x]
            ==> visited[x] || walk(nb, sel, visited, prev, current, fuel).0.contains(x as usize),
        forall|x: int| 0 <= x < visited.len() && #[trigger] visited[x] ==> walk(nb, sel, visited, prev, current, fuel).2[x],
    decreases fuel,
{
    if !(fuel == 0 || !is_interior(nb, sel, current) || current >= visited.len() || visited[current as int]) {
        let marked = visited.update(current as int, true);
        let next = onward(nb, prev, current);
        lemma_walk(nb, sel, marked, current, next, (fuel - 1) as nat);
        let (rest, end, after) = walk(nb, sel, marked, current, next, (fuel - 1) as nat);
        let chain = seq![current] + rest;
        assert(walk(nb, sel, visited, prev, current, fuel) == (chain, end, after));
        assert forall|i: int| 0 <= i < chain.len() implies #[trigger] chain[i] < visited.len() by {
            if i > 0 {
                assert(chain[i] == rest[i - 1]);
            }
        }
        assert forall|i: int| 0 <= i < chain.len() implies !visited[#[trigger] chain[i] as int] by {
            if i > 0 {
                assert(chain[i] == rest[i - 1]);
                assert(!marked[rest[i - 1] as int]);
            }
        }
        assert forall|i: int| 0 <= i < chain.len() implies after[#[trigger] chain[i] as int] by {
            if i > 0 {
                assert(chain[i] == rest[i - 1]);
            } else {
                assert(marked[current as int]);
            }
        }
        assert forall|i: int| 0 <= i < chain.len() implies is_interior(nb, sel, #[trigger] chain[i]) by {
            if i > 0 {
                assert(chain[i] == rest[i - 1]);
            }
        }
        assert forall|i: int, j: int| 0 <= i < j < chain.len() implies chain[i] != chain[j] by {
            if i == 0 {
                assert(chain[j] == rest[j - 1]);
                assert(!marked[rest[j - 1] as int]);
            } else {
                assert(chain[i] == rest[i - 1]);
                assert(chain[j] == rest[j - 1]);
            }
        }
        assert forall|x: int| 0 <= x < visited.len() && #[trigger] after[x] implies visited[x] || chain.contains(x as usize) by {
            if marked[x] && !visited[x] {
                assert(x == current);
                assert(chain[0] == current);
            }
            if rest.contains(x as usize) {
                let k = choose|k: int| 0 <= k < rest.len() && rest[k] == x as usize;
                assert(chain[k + 1] == x as usize);
            }
        }
        assert forall|x: int| 0 <= x < visited.len() && #[trigger] visited[x] implies after[x] by {
            assert(marked[x]);
        }
    }
}

} // verus!

verus! {

fn interior(nb: &Vec<Vec<usize>>, sel: &[usize], v: usize) -> (found: bool)
    ensures
        found == is_interior(crate::history::views(nb@), sel@, v),
{
    let ghost lists = crate::history::views(nb@);
    if v >= nb.len() {
        return false;
    }
    assert(lists[v as int] == nb@[v as int]@);
    listed(sel, v) && nb[v].len() == 2 && listed(sel, nb[v][0]) && listed(sel, nb[v][1])
}

/// Walks along a chain from `prev` into `current` (see `walk`), marking what it visits.
fn walk_along(nb: &Vec<Vec<usize>>, sel: &[usize], visited: &mut Vec<bool>, prev: usize, current: usize, Ghost(fuel): Ghost<nat>)
    -> (result: (Vec<usize>, usize))
    requires
        simple_lists(crate::history::views(nb@)),
        old(visited)@.len() == nb@.len(),
        fuel >= unvisited(old(visited)@),
    ensures
        ({
            let (chain, end, after) = walk(crate::history::views(nb@), sel@, old(visited)@, prev, current, fuel);
            result.0@ == chain && result.1 == end && final(visited)@ == after
        }),
{
    let ghost lists = crate::history::views(nb@);
    let ghost goal = walk(lists, sel@, old(visited)@, prev, current, fuel);
    let mut chain: Vec<usize> = Vec::new();
    let mut p = prev;
    let mut c = current;
    let ghost mut f = fuel;
    while interior(nb, sel, c) && !visited[c]
        invariant
            lists == crate::history::views(nb@),
            simple_lists(lists),
            visited@.len() == nb@.len(),
            f >= unvisited(visited@),
            goal == (chain@ + walk(lists, sel@, visited@, p, c, f).0, walk(lists, sel@, visited@, p, c, f).1,
                walk(lists, sel@, visited@, p, c, f).2),
        decreases f,
    {
        proof {
            lemma_unvisited(visited@, c as int);
            lemma_unvisited(visited@, c as int);
        }
        let ghost prior = visited@;
        let ghost prior_chain = chain@;
        visited.set(c, true);
        chain.push(c);
        assert(lists[c as int] == nb@[c as int]@);
        let next = if nb[c][0] != p { nb[c][0] } else { nb[c][1] };
        proof {
            assert(next == onward(lists, p, c));
            let (rest, end, after) = walk(lists, sel@, visited@, c, next, (f - 1) as nat);
            assert(walk(lists, sel@, prior, p, c, f) == (seq![c] + rest, end, after));
            assert(chain@ + rest =~= prior_chain + (seq![c] + rest));
            f = (f - 1) as nat;
        }
        p = c;
        c = next;
    }
    assert(chain@ + Seq::<usize>::empty() =~= chain@);
    (chain, c)
}

} // verus!

verus! {

/// No vertex stands in two places of the chains.
pub open spec fn entries_distinct(chains: Seq<(Seq<usize>, usize, usize)>) -> bool {
    forall|a: int, i: int, b: int, j: int|
        0 <= a < chains.len() && 0 <= b < chains.len() && 0 <= i < chains[a].0.len() && 0 <= j < chains[b].0.len()
        && (a != b || i != j) ==> #[trigger] chains[a].0[i] != #[trigger] chains[b].0[j]
}

/// Every vertex of the chains is interior, and is visited.
pub open spec fn entries_visited(nb: Seq<Seq<usize>>, sel: Seq<usize>, chains: Seq<(Seq<usize>, usize, usize)>, visited: Seq<bool>) -> bool {
    forall|a: int, i: int| 0 <= a < chains.len() && 0 <= i < chains[a].0.len() ==> {
        let x = #[trigger] chains[a].0[i];
        &&& x < visited.len()
        &&& visited[x as int]
        &&& is_interior(nb, sel, x)
    }
}

pub(crate) proof fn lemma_unvisited_bound(visited: Seq<bool>)
    ensures
        unvisited(visited) <= visited.len(),
    decreases visited.len(),
{
    if visited.len() > 0 {
        lemma_unvisited_bound(visited.drop_last());
    }
}

/// Adding a fresh walk keeps the chains' vertices distinct and visited.
proof fn lemma_add_walk(nb: Seq<Seq<usize>>, sel: Seq<usize>, chains: Seq<(Seq<usize>, usize, usize)>, visited: Seq<bool>,
    prev: usize, current: usize, fuel: nat, from: usize)
    requires
        visited.len() <= usize::MAX,
        entries_distinct(chains),
        entries_visited(nb, sel, chains, visited),
    ensures
        ({
            let (chain, end, after) = walk(nb, sel, visited, prev, current, fuel);
            let grown = chains.push((chain, from, end));
            entries_distinct(grown) && entries_visited(nb, sel, grown, after) && after.len() == visited.len()
        }),
{
    lemma_walk(nb, sel, visited, prev, current, fuel);
    let (chain, end, after) = walk(nb, sel, visited, prev, current, fuel);
    let grown = chains.push((chain, from, end));
    let last = chains.len() as int;
    assert forall|a: int, i: int, b: int, j: int|
        0 <= a < grown.len() && 0 <= b < grown.len() && 0 <= i < grown[a].0.len() && 0 <= j < grown[b].0.len()
        && (a != b || i != j) implies #[trigger] grown[a].0[i] != #[trigger] grown[b].0[j] by {
        if a < last && b < last {
            assert(grown[a] == chains[a] && grown[b] == chains[b]);
        } else if a == last && b == last {
            assert(grown[a].0 == chain);
            if i < j {
                assert(chain[i] != chain[j]);
            } else {
                assert(chain[j] != chain[i]);
            }
        } else if a == last {
            assert(grown[b] == chains[b]);
            assert(visited[chains[b].0[j] as int]);
            assert(!visited[chain[i] as int]);
        } else {
            assert(grown[a] == chains[a]);
            assert(visited[chains[a].0[i] as int]);
            assert(!visited[chain[j] as int]);
        }
    }
    assert forall|a: int, i: int| 0 <= a < grown.len() && 0 <= i < grown[a].0.len() implies {
        let x = #[trigger] grown[a].0[i];
        &&& x < after.len()
        &&& after[x as int]
        &&& is_interior(nb, sel, x)
    } by {
        if a < last {
            assert(grown[a] == chains[a]);
            assert(visited[chains[a].0[i] as int]);
        } else {
            assert(grown[a].0 == chain);
        }
    }
}

/// Walks the chains of the selection (see `chains_of`): the walks from the vertices that
/// are not interior, and the walks around closed loops.
fn walk_chains(nb: &Vec<Vec<usize>>, sel: &[usize]) -> (result: (Vec<(Vec<usize>, usize, usize)>, Vec<(Vec<usize>, usize, usize)>))
    requires
        simple_lists(crate::history::views(nb@)),
        forall|i: int| 0 <= i < sel@.len() ==> #[trigger] sel@[i] < nb@.len(),
    ensures
        ({
            let lists = crate::history::views(nb@);
            let fresh = Seq::new(nb@.len(), |v: int| false);
            let (first, after) = anchor_pass(lists, sel@, fresh, 0, nb@.len());
            &&& crate::history::views(result.0@) == first
            &&& crate::history::views(result.1@) == loop_pass(lists, sel@, after, 0, nb@.len()).0
            &&& entries_distinct(first + loop_pass(lists, sel@, after, 0, nb@.len()).0)
            &&& entries_visited(lists, sel@, first + loop_pass(lists, sel@, after, 0, nb@.len()).0,
                loop_pass(lists, sel@, after, 0, nb@.len()).1)
        }),
{
    let ghost lists = crate::history::views(nb@);
    let n = nb.len();
    let ghost fuel = n as nat;
    let mut visited: Vec<bool> = Vec::new();
    let mut v: usize = 0;
    while v < n
        invariant
            v <= n,
            visited@ == Seq::new(v as nat, |u: int| false),
        decreases n - v,
    {
        visited.push(false);
        v = v + 1;
        assert(visited@ =~= Seq::new(v as nat, |u: int| false));
    }
    let ghost fresh = visited@;
    let ghost (first, after_first) = anchor_pass(lists, sel@, fresh, 0, fuel);
    let mut anchors: Vec<(Vec<usize>, usize, usize)> = Vec::new();
    let mut i: usize = 0;
    while i < sel.len()
        invariant
            lists == crate::history::views(nb@),
            simple_lists(lists),
            n == nb@.len(),
            fuel == n,
            forall|q: int| 0 <= q < sel@.len() ==> #[trigger] sel@[q] < nb@.len(),
            i <= sel@.len(),
            visited@.len() == n,
            (first, after_first) == anchor_pass(lists, sel@, fresh, 0, fuel),
            crate::history::views(anchors@) + anchor_pass(lists, sel@, visited@, i as nat, fuel).0 == first,
            anchor_pass(lists, sel@, visited@, i as nat, fuel).1 == after_first,
            entries_distinct(crate::history::views(anchors@)),
            entries_visited(lists, sel@, crate::history::views(anchors@), visited@),
        decreases sel@.len() - i,
    {
        let anchor = sel[i];
        let ghost before_visit = visited@;
        let ghost base = crate::history::views(anchors@);
        if !interior(nb, sel, anchor) {
            assert(lists[anchor as int] == nb@[anchor as int]@);
            let count = nb[anchor].len();
            let mut k: usize = 0;
            while k < count
                invariant
                    lists == crate::history::views(nb@),
                    simple_lists(lists),
                    n == nb@.len(),
                    fuel == n,
                    anchor < n,
                    count == lists[anchor as int].len(),
                    k <= count,
                    visited@.len() == n,
                    base + anchor_walks(lists, sel@, before_visit, anchor, 0, fuel).0
                        == crate::history::views(anchors@) + anchor_walks(lists, sel@, visited@, anchor, k as nat, fuel).0,
                    anchor_walks(lists, sel@, before_visit, anchor, 0, fuel).1 == anchor_walks(lists, sel@, visited@, anchor, k as nat, fuel).1,
                    entries_distinct(crate::history::views(anchors@)),
                    entries_visited(lists, sel@, crate::history::views(anchors@), visited@),
                decreases count - k,
            {
                assert(lists[anchor as int] == nb@[anchor as int]@);
                let next = nb[anchor][k];
                let ghost prior = visited@;
                let ghost prior_chains = crate::history::views(anchors@);
                proof {
                    lemma_unvisited_bound(visited@);
                    lemma_add_walk(lists, sel@, prior_chains, prior, anchor, next, fuel, anchor);
                }
                let (chain, end) = walk_along(nb, sel, &mut visited, anchor, next, Ghost(fuel));
                let ghost item = (chain@, anchor, end);
                let ghost held = anchors@;
                anchors.push((chain, anchor, end));
                proof {
                    assert(crate::history::views(anchors@) =~= prior_chains.push(item));
                    let rest = anchor_walks(lists, sel@, visited@, anchor, (k + 1) as nat, fuel);
                    assert(anchor_walks(lists, sel@, prior, anchor, k as nat, fuel) == (seq![item] + rest.0, rest.1));
                    assert(prior_chains + (seq![item] + rest.0) =~= prior_chains.push(item) + rest.0);
                }
                k = k + 1;
            }
            proof {
                let done = anchor_walks(lists, sel@, before_visit, anchor, 0, fuel);
                assert(anchor_walks(lists, sel@, visited@, anchor, count as nat, fuel) == (Seq::<(Seq<usize>, usize, usize)>::empty(), visited@));
                assert(anchor_pass(lists, sel@, before_visit, i as nat, fuel).0 == done.0 + anchor_pass(lists, sel@, done.1, (i + 1) as nat, fuel).0);
                assert(crate::history::views(anchors@) =~= base + done.0);
            }
        } else {
            proof {
                assert(anchor_pass(lists, sel@, before_visit, i as nat, fuel) == anchor_pass(lists, sel@, before_visit, (i + 1) as nat, fuel));
            }
        }
        proof {
            assert(crate::history::views(anchors@) + anchor_pass(lists, sel@, visited@, (i + 1) as nat, fuel).0 =~= first);
        }
        i = i + 1;
    }
    proof {
        assert(crate::history::views(anchors@) =~= first);
    }
    let ghost (second, after_second) = loop_pass(lists, sel@, after_first, 0, fuel);
    let mut loops: Vec<(Vec<usize>, usize, usize)> = Vec::new();
    let mut i: usize = 0;
    while i < sel.len()
        invariant
            lists == crate::history::views(nb@),
            simple_lists(lists),
            n == nb@.len(),
            fuel == n,
            forall|q: int| 0 <= q < sel@.len() ==> #[trigger] sel@[q] < nb@.len(),
            i <= sel@.len(),
            visited@.len() == n,
            crate::history::views(anchors@) == first,
            (second, after_second) == loop_pass(lists, sel@, after_first, 0, fuel),
            crate::history::views(loops@) + loop_pass(lists, sel@, visited@, i as nat, fuel).0 == second,
            loop_pass(lists, sel@, visited@, i as nat, fuel).1 == after_second,
            entries_distinct(first + crate::history::views(loops@)),
            entries_visited(lists, sel@, first + crate::history::views(loops@), visited@),
        decreases sel@.len() - i,
    {
        let start = sel[i];
        let ghost prior = visited@;
        let ghost prior_loops = crate::history::views(loops@);
        if interior(nb, sel, start) {
            assert(lists[start as int] == nb@[start as int]@);
            let from = nb[start][0];
            proof {
                lemma_unvisited_bound(visited@);
                lemma_add_walk(lists, sel@, first + prior_loops, prior, from, start, fuel, from);
            }
            let (chain, end) = walk_along(nb, sel, &mut visited, from, start, Ghost(fuel));
            let ghost item = (chain@, from, end);
            loops.push((chain, from, end));
            proof {
                assert(crate::history::views(loops@) =~= prior_loops.push(item));
                assert((first + prior_loops).push(item) =~= first + prior_loops.push(item));
                let rest = loop_pass(lists, sel@, visited@, (i + 1) as nat, fuel);
                assert(loop_pass(lists, sel@, prior, i as nat, fuel) == (seq![item] + rest.0, rest.1));
                assert(prior_loops + (seq![item] + rest.0) =~= prior_loops.push(item) + rest.0);
            }
        } else {
            proof {
                assert(loop_pass(lists, sel@, prior, i as nat, fuel) == loop_pass(lists, sel@, prior, (i + 1) as nat, fuel));
            }
        }
        i = i + 1;
    }
    proof {
        assert(crate::history::views(loops@) =~= second);
    }
    (anchors, loops)
}

} // verus!

verus! {

/// The neighbour lists of a mesh, vertex by vertex.
pub open spec fn neighbour_lists(mesh: MeshView) -> Seq<Seq<usize>> {
    Seq::new(mesh.vertices.len(), |v: int| neighbour_list(mesh.edges, v as usize))
}

/// The items at even positions.
pub open spec fn evens(s: Seq<usize>) -> Seq<usize> {
    Seq::new(((s.len() + 1) / 2) as nat, |k: int| s[2 * k])
}

/// The items at odd positions.
pub open spec fn odds(s: Seq<usize>) -> Seq<usize> {
    Seq::new((s.len() / 2) as nat, |k: int| s[2 * k + 1])
}

/// The vertices a decimation takes from the walks out of the chain ends: every second
/// one, starting with the first.
pub open spec fn open_pieces(chains: Seq<(Seq<usize>, usize, usize)>) -> Seq<usize>
    decreases chains.len(),
{
    if chains.len() == 0 { Seq::empty() } else { open_pieces(chains.drop_last()) + evens(chains.last().0) }
}

/// The vertices a decimation takes from closed loops of more than four vertices: every
/// second one, starting with the second.
pub open spec fn loop_pieces(chains: Seq<(Seq<usize>, usize, usize)>) -> Seq<usize>
    decreases chains.len(),
{
    if chains.len() == 0 {
        Seq::empty()
    } else {
        loop_pieces(chains.drop_last()) + if chains.last().0.len() > 4 { odds(chains.last().0) } else { Seq::empty() }
    }
}

/// The vertices a decimation of `sel` removes.
pub open spec fn decimation(mesh: MeshView, sel: Seq<usize>) -> Seq<usize> {
    let lists = neighbour_lists(mesh);
    let n = mesh.vertices.len();
    let (first, after) = anchor_pass(lists, sel, Seq::new(n, |v: int| false), 0, n);
    open_pieces(first) + loop_pieces(loop_pass(lists, sel, after, 0, n).0)
}

/// The selection once the vertices of `removed` are gone: the others, moved to where
/// they land (each index less the number of removed vertices below it).
pub open spec fn kept_selection(sel: Seq<usize>, removed: Seq<usize>) -> Seq<usize>
    decreases sel.len(),
{
    if sel.len() == 0 {
        Seq::empty()
    } else {
        let prior = kept_selection(sel.drop_last(), removed);
        let v = sel.last();
        if removed.contains(v) { prior } else { prior.push(crate::removal::landing(removed, v)) }
    }
}

/// The chains to space out: each walk out of a chain end with the vertex it comes from
/// and the one it stops at, each closed loop with the vertex it stops at; only those of
/// more than two vertices.
pub open spec fn spacing_chains(mesh: MeshView, sel: Seq<usize>) -> Seq<Seq<usize>> {
    let lists = neighbour_lists(mesh);
    let n = mesh.vertices.len();
    let (first, after) = anchor_pass(lists, sel, Seq::new(n, |v: int| false), 0, n);
    let all = first.map_values(|c: (Seq<usize>, usize, usize)| seq![c.1] + c.0 + seq![c.2])
        + loop_pass(lists, sel, after, 0, n).0.map_values(|c: (Seq<usize>, usize, usize)| c.0 + seq![c.2]);
    all.filter(|chain: Seq<usize>| chain.len() > 2)
}

/// The vertices strictly inside `chain`, which spacing moves, are interior vertices of
/// the selection; its two ends are not moved.
pub open spec fn moves_interior(nb: Seq<Seq<usize>>, sel: Seq<usize>, chain: Seq<usize>) -> bool {
    forall|i: int| 0 < i < chain.len() - 1 ==> is_interior(nb, sel, #[trigger] chain[i])
}

proof fn lemma_filter_moves_interior(nb: Seq<Seq<usize>>, sel: Seq<usize>, s: Seq<Seq<usize>>, pred: spec_fn(Seq<usize>) -> bool)
    requires
        forall|k: int| 0 <= k < s.len() ==> moves_interior(nb, sel, #[trigger] s[k]),
    ensures
        forall|k: int| 0 <= k < s.filter(pred).len() ==> moves_interior(nb, sel, #[trigger] s.filter(pred)[k]),
    decreases s.len(),
{
    reveal(Seq::filter);
    if s.len() > 0 {
        let rest = s.drop_last();
        assert forall|k: int| 0 <= k < rest.len() implies moves_interior(nb, sel, #[trigger] rest[k]) by {
            assert(rest[k] == s[k]);
        }
        lemma_filter_moves_interior(nb, sel, rest, pred);
        let f = rest.filter(pred);
        assert(moves_interior(nb, sel, s[s.len() - 1]));
        assert forall|k: int| 0 <= k < s.filter(pred).len() implies moves_interior(nb, sel, #[trigger] s.filter(pred)[k]) by {
            if pred(s.last()) {
                assert(s.filter(pred) == f.push(s.last()));
                if k < f.len() {
                    assert(s.filter(pred)[k] == f[k]);
                }
            } else {
                assert(s.filter(pred) == f);
            }
        }
    }
}

pub(crate) proof fn lemma_lists(mesh: MeshView)
    requires
        mesh.well_formed(),
    ensures
        simple_lists(neighbour_lists(mesh)),
        neighbour_lists(mesh).len() == mesh.vertices.len(),
{
    let lists = neighbour_lists(mesh);
    assert forall|v: int, j: int| 0 <= v < lists.len() && 0 <= j < lists[v].len() implies #[trigger] lists[v][j] < lists.len() by {
        let u = lists[v][j];
        crate::graph::lemma_neighbour_list(mesh.edges, v as usize, u);
        assert(neighbour_list(mesh.edges, v as usize).contains(u));
        let i = choose|i: int| 0 <= i < mesh.edges.len() && ((mesh.edges[i][0] == v as usize && mesh.edges[i][1] == u)
            || (mesh.edges[i][0] == u && mesh.edges[i][1] == v as usize));
        assert(mesh.edges[i].len() == 2);
        assert(mesh.edges[i][0] < mesh.vertices.len());
        assert(mesh.edges[i][1] < mesh.vertices.len());
    }
}

/// Appends the items of `s` at positions `from`, `from + 2`, ...
fn push_every_second(out: &mut Vec<usize>, s: &Vec<usize>, from: usize)
    requires
        from <= 1,
    ensures
        final(out)@ == old(out)@ + if from == 0 { evens(s@) } else { odds(s@) },
{
    let ghost target = if from == 0 { evens(s@) } else { odds(s@) };
    let ghost base = old(out)@;
    let len = s.len();
    let count = if from == 0 { len - len / 2 } else { len / 2 };
    assert(target.len() == count);
    let mut m: usize = 0;
    while m < count
        invariant
            from <= 1,
            len == s@.len(),
            count == target.len(),
            count == if from == 0 { (len - len / 2) as usize } else { len / 2 },
            m <= count,
            target == if from == 0 { evens(s@) } else { odds(s@) },
            out@ == base + target.take(m as int),
        decreases count - m,
    {
        let j = from + 2 * m;
        out.push(s[j]);
        proof {
            assert(target[m as int] == s@[j as int]);
            assert(target.take(m + 1) =~= target.take(m as int).push(s@[j as int]));
        }
        m = m + 1;
    }
    proof {
        assert(target.take(count as int) =~= target);
    }
}

} // verus!

verus! {

/// `x` stands in one of the first `upto` chains.
pub open spec fn in_chains(all: Seq<(Seq<usize>, usize, usize)>, upto: int, x: usize) -> bool {
    exists|c: int, i: int| 0 <= c < upto && 0 <= i < all[c].0.len() && all[c].0[i] == x
}

/// Every item of `list` stands in one of the first `upto` chains.
pub open spec fn from_chains(list: Seq<usize>, all: Seq<(Seq<usize>, usize, usize)>, upto: int) -> bool {
    forall|q: int| 0 <= q < list.len() ==> in_chains(all, upto, #[trigger] list[q])
}

/// Adding every second vertex of chain `c` keeps the removed vertices distinct.
proof fn lemma_add_pieces(all: Seq<(Seq<usize>, usize, usize)>, removed: Seq<usize>, c: int, from: int)
    requires
        0 <= c < all.len(),
        from == 0 || from == 1,
        entries_distinct(all),
        crate::removal::distinct(removed),
        from_chains(removed, all, c),
    ensures
        ({
            let piece = if from == 0 { evens(all[c].0) } else { odds(all[c].0) };
            crate::removal::distinct(removed + piece) && from_chains(removed + piece, all, c + 1)
        }),
{
    let chain = all[c].0;
    let piece = if from == 0 { evens(chain) } else { odds(chain) };
    let grown = removed + piece;
    assert forall|m: int| 0 <= m < piece.len() implies 0 <= 2 * m + from < chain.len() && #[trigger] piece[m] == chain[2 * m + from] by {}
    assert forall|i: int, j: int| 0 <= i < j < grown.len() implies grown[i] != grown[j] by {
        if j >= removed.len() {
            let mj = j - removed.len();
            assert(grown[j] == piece[mj]);
            assert(piece[mj] == chain[2 * mj + from]);
            if i < removed.len() {
                assert(in_chains(all, c, removed[i]));
                let (c2, i2) = choose|c2: int, i2: int| 0 <= c2 < c && 0 <= i2 < all[c2].0.len() && all[c2].0[i2] == removed[i];
                assert(all[c2].0[i2] != all[c].0[2 * mj + from]);
            } else {
                let mi = i - removed.len();
                assert(piece[mi] == chain[2 * mi + from]);
                assert(all[c].0[2 * mi + from] != all[c].0[2 * mj + from]);
            }
        }
    }
    assert forall|q: int| 0 <= q < grown.len() implies in_chains(all, c + 1, #[trigger] grown[q]) by {
        if q < removed.len() {
            assert(in_chains(all, c, removed[q]));
            let (c2, i2) = choose|c2: int, i2: int| 0 <= c2 < c && 0 <= i2 < all[c2].0.len() && all[c2].0[i2] == removed[q];
            assert(all[c2].0[i2] == grown[q]);
        } else {
            let m = q - removed.len();
            assert(piece[m] == chain[2 * m + from]);
            assert(all[c].0[2 * m + from] == grown[q]);
        }
    }
}

/// The vertices a decimation removes, from the walks out of chain ends and the closed
/// loops.
fn pieces(anchors: &Vec<(Vec<usize>, usize, usize)>, loops: &Vec<(Vec<usize>, usize, usize)>) -> (removed: Vec<usize>)
    requires
        entries_distinct(crate::history::views(anchors@) + crate::history::views(loops@)),
    ensures
        removed@ == open_pieces(crate::history::views(anchors@)) + loop_pieces(crate::history::views(loops@)),
        crate::removal::distinct(removed@),
        from_chains(removed@, crate::history::views(anchors@) + crate::history::views(loops@),
            (anchors@.len() + loops@.len()) as int),
{
    let ghost first = crate::history::views(anchors@);
    let ghost second = crate::history::views(loops@);
    let ghost all = first + second;
    let mut removed: Vec<usize> = Vec::new();
    let mut a: usize = 0;
    while a < anchors.len()
        invariant
            a <= anchors@.len(),
            first == crate::history::views(anchors@),
            all == first + second,
            entries_distinct(all),
            removed@ == open_pieces(first.take(a as int)),
            crate::removal::distinct(removed@),
            from_chains(removed@, all, a as int),
        decreases anchors@.len() - a,
    {
        proof {
            assert(all[a as int] == first[a as int]);
            assert(first[a as int].0 == anchors@[a as int].0@);
            lemma_add_pieces(all, removed@, a as int, 0);
            assert(first.take(a + 1).drop_last() =~= first.take(a as int));
        }
        push_every_second(&mut removed, &anchors[a].0, 0);
        a = a + 1;
    }
    proof {
        assert(first.take(first.len() as int) =~= first);
    }
    let ghost head = removed@;
    let mut b: usize = 0;
    while b < loops.len()
        invariant
            b <= loops@.len(),
            second == crate::history::views(loops@),
            all == first + second,
            first.len() == anchors@.len(),
            entries_distinct(all),
            head == open_pieces(first),
            removed@ == head + loop_pieces(second.take(b as int)),
            crate::removal::distinct(removed@),
            from_chains(removed@, all, first.len() + b),
        decreases loops@.len() - b,
    {
        let ghost prior = removed@;
        proof {
            assert(second.take(b + 1).drop_last() =~= second.take(b as int));
            assert(all[first.len() + b] == second[b as int]);
            assert(second[b as int].0 == loops@[b as int].0@);
        }
        if loops[b].0.len() > 4 {
            proof {
                lemma_add_pieces(all, removed@, first.len() + b, 1);
            }
            push_every_second(&mut removed, &loops[b].0, 1);
            proof {
                assert(removed@ =~= head + loop_pieces(second.take(b + 1)));
            }
        } else {
            proof {
                assert(removed@ =~= head + loop_pieces(second.take(b + 1)));
                assert forall|q: int| 0 <= q < removed@.len() implies in_chains(all, first.len() + b + 1, #[trigger] removed@[q]) by {
                    assert(in_chains(all, first.len() + b, removed@[q]));
                    let (c, i) = choose|c: int, i: int| 0 <= c < first.len() + b && 0 <= i < all[c].0.len() && all[c].0[i] == removed@[q];
                    assert(all[c].0[i] == removed@[q]);
                }
            }
        }
        b = b + 1;
    }
    proof {
        assert(second.take(second.len() as int) =~= second);
    }
    removed
}

} // verus!

verus! {

/// The selection once the vertices of `removed` are gone (see `kept_selection`).
fn keep_selection(sel: &[usize], removed: &Vec<usize>, n: usize) -> (kept: Vec<usize>)
    requires
        forall|i: int| 0 <= i < sel@.len() ==> #[trigger] sel@[i] < n,
    ensures
        kept@ == kept_selection(sel@, removed@),
{
    let ghost list = removed@;
    let mut gone: Vec<bool> = Vec::new();
    let mut lands: Vec<usize> = Vec::new();
    let mut count: usize = 0;
    let mut v: usize = 0;
    while v < n
        invariant
            v <= n,
            list == removed@,
            count == crate::removal::gone_below(list, v as nat),
            count <= v,
            crate::removal::moves(gone@, lands@, list, v as int),
        decreases n - v,
    {
        let g = listed(removed.as_slice(), v);
        gone.push(g);
        lands.push(v - count);
        if g {
            count = count + 1;
        }
        proof {
            assert(crate::removal::gone_below(list, (v + 1) as nat) == crate::removal::gone_below(list, v as nat)
                + if list.contains(v) { 1nat } else { 0nat });
        }
        v = v + 1;
    }
    let mut kept: Vec<usize> = Vec::new();
    let mut i: usize = 0;
    while i < sel.len()
        invariant
            i <= sel@.len(),
            forall|q: int| 0 <= q < sel@.len() ==> #[trigger] sel@[q] < n,
            crate::removal::moves(gone@, lands@, list, n as int),
            kept@ == kept_selection(sel@.take(i as int), list),
        decreases sel@.len() - i,
    {
        let v = sel[i];
        if !gone[v] {
            kept.push(lands[v]);
        }
        proof {
            assert(sel@.take(i + 1).drop_last() =~= sel@.take(i as int));
            assert(sel@.take(i + 1).last() == v);
        }
        i = i + 1;
    }
    assert(sel@.take(sel@.len() as int) =~= sel@);
    kept
}

impl Mesh {
    /// Decimates the selection: removes every second vertex along each chain of selected
    /// vertices (see `decimation`) by dissolving it, which joins its neighbours. Returns
    /// the selection without the removed vertices, renumbered.
    pub fn decimate(&mut self, vertices: &[usize]) -> (kept: Vec<usize>)
        requires
            old(self)@.well_formed(),
            forall|i: int| 0 <= i < vertices@.len() ==> #[trigger] vertices@[i] < old(self)@.vertices.len(),
            no_double(neighbour_lists(old(self)@), vertices@),
            old(self).layers@.len() + old(self).vertices@.len() < u32::MAX,
        ensures
            ({
                let removed = decimation(old(self)@, vertices@);
                &&& kept@ == kept_selection(vertices@, removed)
                &&& synced(without(crate::merging::bridged(old(self)@, removed), removed), final(self)@)
                &&& final(self)@ == crate::sync::sync_result(without(crate::merging::bridged(old(self)@, removed), removed), false)
                &&& crate::removal::distinct(removed)
                &&& forall|k: int| 0 <= k < removed.len() ==> is_interior(neighbour_lists(old(self)@), vertices@, #[trigger] removed[k])
            }),
    {
        let ghost before = self@;
        let n = self.vertices.len();
        let lists = self.neighbours();
        proof {
            assert(crate::history::views(lists@) =~= neighbour_lists(before));
            lemma_lists(before);
        }
        let (anchors, loops) = walk_chains(&lists, vertices);
        let removed = pieces(&anchors, &loops);
        proof {
            let all = crate::history::views(anchors@) + crate::history::views(loops@);
            let nb = neighbour_lists(before);
            assert forall|k: int| 0 <= k < removed@.len() implies is_interior(nb, vertices@, #[trigger] removed@[k]) by {
                assert(in_chains(all, all.len() as int, removed@[k]));
                let (c, i) = choose|c: int, i: int| 0 <= c < all.len() && 0 <= i < all[c].0.len() && all[c].0[i] == removed@[k];
                assert(all[c].0[i] == removed@[k]);
            }
        }
        let kept = keep_selection(vertices, &removed, n);
        assert(self.layers@.len() == self@.layers.len() && self.vertices@.len() == self@.vertices.len());
        self.dissolve(removed);
        kept
    }

    /// The chains along which the selection is spaced out evenly (see `spacing_chains`):
    /// their ends stay where they are.
    pub fn space_chains(&self, vertices: &[usize]) -> (chains: Vec<Vec<usize>>)
        requires
            self@.well_formed(),
            forall|i: int| 0 <= i < vertices@.len() ==> #[trigger] vertices@[i] < self@.vertices.len(),
        ensures
            crate::history::views(chains@) == spacing_chains(self@, vertices@),
            forall|c: int| 0 <= c < chains@.len() ==> moves_interior(neighbour_lists(self@), vertices@, #[trigger] chains@[c]@),
    {
        let lists = self.neighbours();
        proof {
            assert(crate::history::views(lists@) =~= neighbour_lists(self@));
            lemma_lists(self@);
        }
        let (anchors, loops) = walk_chains(&lists, vertices);
        let ghost first = crate::history::views(anchors@);
        let ghost second = crate::history::views(loops@);
        let ghost all = first.map_values(|c: (Seq<usize>, usize, usize)| seq![c.1] + c.0 + seq![c.2])
            + second.map_values(|c: (Seq<usize>, usize, usize)| c.0 + seq![c.2]);
        let ghost keep = |chain: Seq<usize>| chain.len() > 2;
        let mut chains: Vec<Vec<usize>> = Vec::new();
        let mut a: usize = 0;
        while a < anchors.len()
            invariant
                a <= anchors@.len(),
                first == crate::history::views(anchors@),
                keep == |chain: Seq<usize>| chain.len() > 2,
                all == first.map_values(|c: (Seq<usize>, usize, usize)| seq![c.1] + c.0 + seq![c.2])
                    + second.map_values(|c: (Seq<usize>, usize, usize)| c.0 + seq![c.2]),
                crate::history::views(chains@) == all.take(a as int).filter(keep),
            decreases anchors@.len() - a,
        {
            let (chain, from, end) = (&anchors[a].0, anchors[a].1, anchors[a].2);
            let mut full: Vec<usize> = Vec::new();
            full.push(from);
            let mut k: usize = 0;
            while k < chain.len()
                invariant
                    k <= chain@.len(),
                    full@ == seq![from] + chain@.take(k as int),
                decreases chain@.len() - k,
            {
                full.push(chain[k]);
                assert(seq![from] + chain@.take(k + 1) =~= (seq![from] + chain@.take(k as int)).push(chain@[k as int]));
                k = k + 1;
            }
            full.push(end);
            proof {
                assert(chain@.take(chain@.len() as int) =~= chain@);
                assert(full@ =~= seq![from] + chain@ + seq![end]);
                assert(all[a as int] == full@);
                assert(all.take(a + 1) =~= all.take(a as int).push(full@));
                all.take(a as int).lemma_filter_push(full@, keep);
            }
            if full.len() > 2 {
                let ghost prior = chains@;
                let ghost fv = full@;
                chains.push(full);
                assert(crate::history::views(chains@) =~= crate::history::views(prior).push(fv));
            }
            a = a + 1;
        }
        let mut b: usize = 0;
        while b < loops.len()
            invariant
                b <= loops@.len(),
                second == crate::history::views(loops@),
                first.len() == anchors@.len(),
                keep == |chain: Seq<usize>| chain.len() > 2,
                all == first.map_values(|c: (Seq<usize>, usize, usize)| seq![c.1] + c.0 + seq![c.2])
                    + second.map_values(|c: (Seq<usize>, usize, usize)| c.0 + seq![c.2]),
                crate::history::views(chains@) == all.take(first.len() + b).filter(keep),
            decreases loops@.len() - b,
        {
            let (chain, end) = (&loops[b].0, loops[b].2);
            let mut full: Vec<usize> = Vec::new();
            let mut k: usize = 0;
            while k < chain.len()
                invariant
                    k <= chain@.len(),
                    full@ == chain@.take(k as int),
                decreases chain@.len() - k,
            {
                full.push(chain[k]);
                k = k + 1;
            }
            full.push(end);
            proof {
                assert(chain@.take(chain@.len() as int) =~= chain@);
                assert(full@ =~= chain@ + seq![end]);
                assert(all[first.len() + b] == full@);
                assert(all.take(first.len() + b + 1) =~= all.take(first.len() + b).push(full@));
                all.take(first.len() + b).lemma_filter_push(full@, keep);
            }
            if full.len() > 2 {
                let ghost prior = chains@;
                let ghost fv = full@;
                chains.push(full);
                assert(crate::history::views(chains@) =~= crate::history::views(prior).push(fv));
            }
            b = b + 1;
        }
        proof {
            assert(all.take(all.len() as int) =~= all);
            let nb = neighbour_lists(self@);
            let entries = first + second;
            assert forall|k: int| 0 <= k < all.len() implies moves_interior(nb, vertices@, #[trigger] all[k]) by {
                if k < first.len() {
                    let c = first[k];
                    assert(all[k] == seq![c.1] + c.0 + seq![c.2]);
                    assert forall|i: int| 0 < i < all[k].len() - 1 implies is_interior(nb, vertices@, #[trigger] all[k][i]) by {
                        assert(all[k][i] == c.0[i - 1]);
                        assert(entries[k] == c);
                    }
                } else {
                    let c = second[k - first.len()];
                    assert(all[k] == c.0 + seq![c.2]);
                    assert forall|i: int| 0 < i < all[k].len() - 1 implies is_interior(nb, vertices@, #[trigger] all[k][i]) by {
                        assert(all[k][i] == c.0[i]);
                        assert(entries[k] == c);
                    }
                }
            }
            lemma_filter_moves_interior(nb, vertices@, all, keep);
            assert forall|c: int| 0 <= c < chains@.len() implies moves_interior(nb, vertices@, #[trigger] chains@[c]@) by {
                assert(crate::history::views(chains@)[c] == chains@[c]@);
            }
        }
        chains
    }
}

} // verus!

verus! {

/// Each vertex is listed among the neighbours of each of its neighbours.
pub open spec fn symmetric_lists(nb: Seq<Seq<usize>>) -> bool {
    forall|x: usize, y: usize| x < nb.len() && y < nb.len() ==> (#[trigger] nb[x as int].contains(y) <==> #[trigger] nb[y as int].contains(x))
}

/// No vertex is its own neighbour.
pub open spec fn no_self(nb: Seq<Seq<usize>>) -> bool {
    forall|x: usize| x < nb.len() ==> !(#[trigger] nb[x as int]).contains(x)
}

/// A selected vertex that is not interior: chains start and stop there.
pub open spec fn is_anchor(nb: Seq<Seq<usize>>, sel: Seq<usize>, u: usize) -> bool {
    sel.contains(u) && u < nb.len() && !is_interior(nb, sel, u)
}

/// Every visited interior vertex has each neighbour visited or not interior.
spec fn closed(nb: Seq<Seq<usize>>, sel: Seq<usize>, visited: Seq<bool>) -> bool {
    forall|x: usize, y: usize| x < visited.len() && visited[x as int] && is_interior(nb, sel, x) && #[trigger] nb[x as int].contains(y)
        ==> #[trigger] visited[y as int] || !is_interior(nb, sel, y)
}

/// Every interior neighbour of `u` is visited.
spec fn anchor_done(nb: Seq<Seq<usize>>, sel: Seq<usize>, visited: Seq<bool>, u: usize) -> bool {
    forall|y: usize| #[trigger] nb[u as int].contains(y) && is_interior(nb, sel, y) ==> visited[y as int]
}

/// The vertex a walk came from before the `i`-th vertex of its chain.
pub open spec fn before_in(chain: Seq<usize>, prev: usize, i: int) -> usize {
    if i == 0 { prev } else { chain[i - 1] }
}

/// The vertex a walk goes on to after the `i`-th vertex of its chain.
pub open spec fn after_in(chain: Seq<usize>, end: usize, i: int) -> usize {
    if i + 1 < chain.len() { chain[i + 1] } else { end }
}

proof fn lemma_all_visited(visited: Seq<bool>, x: int)
    requires
        unvisited(visited) == 0,
        0 <= x < visited.len(),
    ensures
        visited[x],
{
    if !visited[x] {
        lemma_unvisited(visited, x);
    }
}

/// The shape of a walk: its chain goes from neighbour to neighbour, each vertex of it has
/// exactly the vertices before and after it as neighbours, the walk never turns back,
/// and it stops at a vertex that is not interior or is visited.
proof fn lemma_walk_shape(nb: Seq<Seq<usize>>, sel: Seq<usize>, visited: Seq<bool>, prev: usize, current: usize, fuel: nat)
    requires
        simple_lists(nb),
        symmetric_lists(nb),
        no_double(nb, sel),
        visited.len() == nb.len(),
        nb.len() <= usize::MAX,
        prev < nb.len(),
        current < nb.len(),
        nb[prev as int].contains(current),
        fuel >= unvisited(visited),
    ensures
        ({
            let (chain, end, after) = walk(nb, sel, visited, prev, current, fuel);
            &&& end < nb.len()
            &&& chain.len() == 0 ==> end == current
            &&& chain.len() > 0 ==> chain[0] == current
            &&& forall|i: int| 0 <= i < chain.len() ==> nb[chain[i] as int].contains(after_in(chain, end, i))
            &&& forall|i: int, y: usize| 0 <= i < chain.len() && #[trigger] nb[chain[i] as int].contains(y)
                ==> y == before_in(chain, prev, i) || y == after_in(chain, end, i)
            &&& chain.len() > 0 ==> end != before_in(chain, prev, chain.len() - 1)
            &&& !is_interior(nb, sel, end) || after[end as int]
        }),
    decreases fuel,
{
    lemma_walk(nb, sel, visited, prev, current, fuel);
    if fuel == 0 || !is_interior(nb, sel, current) || current >= visited.len() || visited[current as int] {
        if fuel == 0 && is_interior(nb, sel, current) {
            lemma_unvisited_bound(visited);
            lemma_all_visited(visited, current as int);
        }
    } else {
        let marked = visited.update(current as int, true);
        let next = onward(nb, prev, current);
        lemma_unvisited(visited, current as int);
        assert(nb[current as int].contains(prev));
        assert(nb[current as int].len() == 2);
        assert(nb[current as int][0] != nb[current as int][1]);
        assert(nb[current as int].contains(next)) by {
            if nb[current as int][0] != prev {
                assert(nb[current as int][0] == next);
            } else {
                assert(nb[current as int][1] == next);
            }
        }
        assert(next < nb.len());
        assert(next != prev);
        assert forall|y: usize| #[trigger] nb[current as int].contains(y) implies y == prev || y == next by {
            let j = choose|j: int| 0 <= j < nb[current as int].len() && nb[current as int][j] == y;
            let k = choose|k: int| 0 <= k < nb[current as int].len() && nb[current as int][k] == prev;
        }
        lemma_walk_shape(nb, sel, marked, current, next, (fuel - 1) as nat);
        let (rest, end, after) = walk(nb, sel, marked, current, next, (fuel - 1) as nat);
        let chain = seq![current] + rest;
        assert(walk(nb, sel, visited, prev, current, fuel) == (chain, end, after));
        assert(rest.len() > 0 ==> rest[0] == next);
        assert(after_in(chain, end, 0) == next);
        assert forall|i: int| 0 <= i < chain.len() implies nb[chain[i] as int].contains(after_in(chain, end, i)) by {
            if i > 0 {
                assert(chain[i] == rest[i - 1]);
                assert(after_in(chain, end, i) == after_in(rest, end, i - 1));
            }
        }
        assert forall|i: int, y: usize| 0 <= i < chain.len() && #[trigger] nb[chain[i] as int].contains(y)
            implies y == before_in(chain, prev, i) || y == after_in(chain, end, i) by {
            if i > 0 {
                assert(chain[i] == rest[i - 1]);
                assert(after_in(chain, end, i) == after_in(rest, end, i - 1));
                assert(before_in(chain, prev, i) == before_in(rest, current, i - 1));
                assert(nb[rest[i - 1] as int].contains(y));
            }
        }
        if rest.len() > 0 {
            assert(before_in(chain, prev, chain.len() - 1) == before_in(rest, current, rest.len() - 1));
        }
    }
}

/// A walk around a closed loop: starting at an interior vertex not visited yet, coming
/// from its first neighbour, when every visited interior vertex has its neighbours
/// visited or not interior and every chain end has its interior neighbours visited, the
/// walk comes back to where it started, and that property still holds after it.
proof fn lemma_loop_walk(nb: Seq<Seq<usize>>, sel: Seq<usize>, visited: Seq<bool>, v: usize, fuel: nat)
    requires
        simple_lists(nb),
        symmetric_lists(nb),
        no_self(nb),
        no_double(nb, sel),
        visited.len() == nb.len(),
        nb.len() <= usize::MAX,
        closed(nb, sel, visited),
        forall|u: usize| #[trigger] is_anchor(nb, sel, u) ==> anchor_done(nb, sel, visited, u),
        is_interior(nb, sel, v),
        !visited[v as int],
        fuel >= unvisited(visited),
    ensures
        ({
            let (chain, end, after) = walk(nb, sel, visited, nb[v as int][0], v, fuel);
            &&& chain.len() > 0
            &&& chain[0] == v
            &&& end == v
            &&& forall|i: int| 0 <= i < chain.len() ==> nb[chain[i] as int].contains(after_in(chain, end, i))
            &&& closed(nb, sel, after)
            &&& after.len() == visited.len()
            &&& forall|x: int| 0 <= x < visited.len() && visited[x] ==> after[x]
        }),
{
    let p0 = nb[v as int][0];
    assert(nb[v as int].contains(p0));
    assert(p0 < nb.len());
    assert(nb[p0 as int].contains(v));
    lemma_walk(nb, sel, visited, p0, v, fuel);
    lemma_walk_shape(nb, sel, visited, p0, v, fuel);
    lemma_unvisited(visited, v as int);
    let (chain, end, after) = walk(nb, sel, visited, p0, v, fuel);
    assert(chain.len() > 0);
    let n = chain.len();
    let last = chain[n - 1];
    assert(after_in(chain, end, n - 1) == end);
    assert(nb[chain[n - 1] as int].contains(after_in(chain, end, n - 1)));
    assert(nb[last as int].contains(end));
    assert(is_interior(nb, sel, last));
    assert(!visited[last as int]);
    assert(nb[end as int].contains(last));
    // The walk cannot stop at a chain end: that end's interior neighbour `last` would
    // have been visited before.
    if !is_interior(nb, sel, end) {
        assert(sel.contains(end)) by {
            let j = choose|j: int| 0 <= j < nb[last as int].len() && nb[last as int][j] == end;
        }
        assert(is_anchor(nb, sel, end));
        assert(anchor_done(nb, sel, visited, end));
        assert(false);
    }
    assert(after[end as int]);
    if visited[end as int] {
        assert(false);
    }
    assert(chain.contains(end));
    let j = choose|j: int| 0 <= j < chain.len() && chain[j] == end;
    assert(last == before_in(chain, p0, j) || last == after_in(chain, end, j));
    if j == n - 1 {
        assert(nb[last as int].contains(last));
        assert(false);
    } else if j > 0 {
        if last == chain[j - 1] {
            assert(false);
        } else {
            assert(last == chain[j + 1]);
            assert(j + 1 == n - 1);
            assert(end == before_in(chain, p0, n - 1));
            assert(false);
        }
    }
    assert(end == v);
    // The walk came back through the first neighbour, so that one is visited too.
    assert(nb[v as int].contains(last));
    assert(last == p0 || last == after_in(chain, end, 0));
    if last != p0 {
        if n == 1 {
            assert(nb[v as int].contains(v));
            assert(false);
        } else {
            assert(last == chain[1]);
            assert(n == 2);
            assert(end == before_in(chain, p0, 1));
            assert(false);
        }
    }
    assert(after[p0 as int]);
    assert forall|x: usize, y: usize| x < after.len() && after[x as int] && is_interior(nb, sel, x) && #[trigger] nb[x as int].contains(y)
        implies #[trigger] after[y as int] || !is_interior(nb, sel, y) by {
        if visited[x as int] {
            assert(y < nb.len());
            if visited[y as int] {
                assert(after[y as int]);
            }
        } else {
            assert(chain.contains(x));
            let i = choose|i: int| 0 <= i < chain.len() && chain[i] == x;
            assert(nb[chain[i] as int].contains(y));
            assert(y == before_in(chain, p0, i) || y == after_in(chain, end, i));
            if y == before_in(chain, p0, i) && i > 0 {
                assert(chain[i - 1] == y);
            }
            if y == after_in(chain, end, i) && i + 1 < chain.len() {
                assert(chain[i + 1] == y);
            }
        }
    }
}

/// A walk from a chain end into one of its neighbours leaves that neighbour visited
/// (or not interior), and keeps every visited interior vertex with its neighbours
/// visited or not interior.
proof fn lemma_anchor_walk(nb: Seq<Seq<usize>>, sel: Seq<usize>, visited: Seq<bool>, u: usize, current: usize, fuel: nat)
    requires
        simple_lists(nb),
        symmetric_lists(nb),
        no_self(nb),
        no_double(nb, sel),
        visited.len() == nb.len(),
        nb.len() <= usize::MAX,
        closed(nb, sel, visited),
        u < nb.len(),
        !is_interior(nb, sel, u),
        nb[u as int].contains(current),
        fuel >= unvisited(visited),
    ensures
        ({
            let (chain, end, after) = walk(nb, sel, visited, u, current, fuel);
            &&& closed(nb, sel, after)
            &&& after.len() == visited.len()
            &&& forall|x: int| 0 <= x < visited.len() && visited[x] ==> after[x]
            &&& after[current as int] || !is_interior(nb, sel, current)
            &&& unvisited(after) <= unvisited(visited)
            &&& chain.len() > 0 ==> chain[0] == current && is_anchor(nb, sel, end)
                && forall|i: int| 0 <= i < chain.len() ==> nb[chain[i] as int].contains(after_in(chain, end, i))
        }),
{
    assert(current < nb.len());
    lemma_walk(nb, sel, visited, u, current, fuel);
    lemma_walk_shape(nb, sel, visited, u, current, fuel);
    let (chain, end, after) = walk(nb, sel, visited, u, current, fuel);
    assert forall|x: usize, y: usize| x < after.len() && after[x as int] && is_interior(nb, sel, x) && #[trigger] nb[x as int].contains(y)
        implies #[trigger] after[y as int] || !is_interior(nb, sel, y) by {
        if visited[x as int] {
            assert(y < nb.len());
            if visited[y as int] {
                assert(after[y as int]);
            }
        } else {
            assert(chain.contains(x));
            let i = choose|i: int| 0 <= i < chain.len() && chain[i] == x;
            assert(nb[chain[i] as int].contains(y));
            assert(y == before_in(chain, u, i) || y == after_in(chain, end, i));
            if y == before_in(chain, u, i) && i > 0 {
                assert(chain[i - 1] == y);
            }
            if y == after_in(chain, end, i) && i + 1 < chain.len() {
                assert(chain[i + 1] == y);
            }
        }
    }
    lemma_unvisited_mono(visited, after);
    if chain.len() > 0 {
        let n = chain.len();
        let last = chain[n - 1];
        assert(after_in(chain, end, n - 1) == end);
        assert(nb[chain[n - 1] as int].contains(after_in(chain, end, n - 1)));
        assert(is_interior(nb, sel, last));
        assert(!visited[last as int]);
        assert(nb[end as int].contains(last));
        if is_interior(nb, sel, end) {
            assert(after[end as int]);
            if visited[end as int] {
                assert(false);
            }
            assert(chain.contains(end));
            let j = choose|j: int| 0 <= j < chain.len() && chain[j] == end;
            assert(last == before_in(chain, u, j) || last == after_in(chain, end, j));
            if j == n - 1 {
                assert(nb[last as int].contains(last));
            } else if j > 0 {
                if last != chain[j - 1] {
                    assert(last == chain[j + 1]);
                    assert(end == before_in(chain, u, n - 1));
                }
            }
            assert(false);
        }
        assert(sel.contains(end)) by {
            let j = choose|j: int| 0 <= j < nb[last as int].len() && nb[last as int][j] == end;
        }
    }
}

proof fn lemma_unvisited_mono(a: Seq<bool>, b: Seq<bool>)
    requires
        a.len() == b.len(),
        forall|x: int| 0 <= x < a.len() && a[x] ==> b[x],
    ensures
        unvisited(b) <= unvisited(a),
    decreases a.len(),
{
    if a.len() > 0 {
        lemma_unvisited_mono(a.drop_last(), b.drop_last());
    }
}

/// A walk out of a chain end that passes some vertex goes from neighbour to neighbour,
/// from the end it starts at, and stops at a chain end.
pub open spec fn anchor_walk_shape(nb: Seq<Seq<usize>>, sel: Seq<usize>, c: (Seq<usize>, usize, usize)) -> bool {
    c.0.len() > 0 ==> {
        &&& nb[c.1 as int].contains(c.0[0])
        &&& is_anchor(nb, sel, c.2)
        &&& forall|k: int| 0 <= k < c.0.len() ==> nb[c.0[k] as int].contains(after_in(c.0, c.2, k))
    }
}

proof fn lemma_anchor_walks(nb: Seq<Seq<usize>>, sel: Seq<usize>, visited: Seq<bool>, anchor: usize, k: nat, fuel: nat)
    requires
        simple_lists(nb),
        symmetric_lists(nb),
        no_self(nb),
        no_double(nb, sel),
        visited.len() == nb.len(),
        nb.len() <= usize::MAX,
        closed(nb, sel, visited),
        anchor < nb.len(),
        !is_interior(nb, sel, anchor),
        fuel >= unvisited(visited),
    ensures
        ({
            let (entries, last) = anchor_walks(nb, sel, visited, anchor, k, fuel);
            &&& closed(nb, sel, last)
            &&& last.len() == visited.len()
            &&& forall|x: int| 0 <= x < visited.len() && visited[x] ==> last[x]
            &&& unvisited(last) <= unvisited(visited)
            &&& forall|j: int| k <= j < nb[anchor as int].len() ==> last[#[trigger] nb[anchor as int][j] as int]
                || !is_interior(nb, sel, nb[anchor as int][j])
            &&& forall|e: int| 0 <= e < entries.len() ==> (#[trigger] entries[e]).1 == anchor
            &&& forall|e: int| 0 <= e < entries.len() ==> anchor_walk_shape(nb, sel, #[trigger] entries[e])
        }),
    decreases nb[anchor as int].len() - k,
{
    if k < nb[anchor as int].len() {
        let current = nb[anchor as int][k as int];
        assert(nb[anchor as int].contains(current));
        lemma_anchor_walk(nb, sel, visited, anchor, current, fuel);
        let (chain, end, after) = walk(nb, sel, visited, anchor, current, fuel);
        lemma_anchor_walks(nb, sel, after, anchor, k + 1, fuel);
        let (rest, last) = anchor_walks(nb, sel, after, anchor, k + 1, fuel);
        let entries = seq![(chain, anchor, end)] + rest;
        assert(anchor_walks(nb, sel, visited, anchor, k, fuel) == (entries, last));
        assert forall|e: int| 0 <= e < entries.len() implies (#[trigger] entries[e]).1 == anchor
            && anchor_walk_shape(nb, sel, entries[e]) by {
            if e > 0 {
                assert(entries[e] == rest[e - 1]);
            }
        }
        assert(current < nb.len());
    }
}

proof fn lemma_anchor_pass(nb: Seq<Seq<usize>>, sel: Seq<usize>, visited: Seq<bool>, i: nat, fuel: nat)
    requires
        simple_lists(nb),
        symmetric_lists(nb),
        no_self(nb),
        no_double(nb, sel),
        visited.len() == nb.len(),
        nb.len() <= usize::MAX,
        closed(nb, sel, visited),
        fuel >= unvisited(visited),
    ensures
        ({
            let (entries, last) = anchor_pass(nb, sel, visited, i, fuel);
            &&& closed(nb, sel, last)
            &&& last.len() == visited.len()
            &&& forall|x: int| 0 <= x < visited.len() && visited[x] ==> last[x]
            &&& unvisited(last) <= unvisited(visited)
            &&& forall|j: int| i <= j < sel.len() && is_anchor(nb, sel, #[trigger] sel[j]) ==> anchor_done(nb, sel, last, sel[j])
            &&& forall|e: int| 0 <= e < entries.len() ==> is_anchor(nb, sel, (#[trigger] entries[e]).1)
                && anchor_walk_shape(nb, sel, entries[e])
        }),
    decreases sel.len() - i,
{
    if i < sel.len() {
        let v = sel[i as int];
        let (now, after) = if !is_interior(nb, sel, v) && v < nb.len() {
            anchor_walks(nb, sel, visited, v, 0, fuel)
        } else {
            (Seq::empty(), visited)
        };
        if !is_interior(nb, sel, v) && v < nb.len() {
            lemma_anchor_walks(nb, sel, visited, v, 0, fuel);
            assert forall|y: usize| #[trigger] nb[v as int].contains(y) && is_interior(nb, sel, y) implies after[y as int] by {
                let j = choose|j: int| 0 <= j < nb[v as int].len() && nb[v as int][j] == y;
            }
        }
        lemma_anchor_pass(nb, sel, after, i + 1, fuel);
        let (rest, last) = anchor_pass(nb, sel, after, i + 1, fuel);
        assert(anchor_pass(nb, sel, visited, i, fuel) == (now + rest, last));
        assert forall|j: int| i <= j < sel.len() && is_anchor(nb, sel, #[trigger] sel[j]) implies anchor_done(nb, sel, last, sel[j]) by {
            if j == i {
                assert(anchor_done(nb, sel, after, v));
                assert forall|y: usize| #[trigger] nb[v as int].contains(y) && is_interior(nb, sel, y) implies last[y as int] by {
                    assert(y < nb.len());
                    assert(after[y as int]);
                }
            }
        }
        assert forall|e: int| 0 <= e < (now + rest).len() implies is_anchor(nb, sel, (#[trigger] (now + rest)[e]).1)
            && anchor_walk_shape(nb, sel, (now + rest)[e]) by {
            if e < now.len() {
                assert((now + rest)[e] == now[e]);
                assert(sel.contains(v));
            } else {
                assert((now + rest)[e] == rest[e - now.len()]);
            }
        }
    }
}

proof fn lemma_loop_pass(nb: Seq<Seq<usize>>, sel: Seq<usize>, visited: Seq<bool>, i: nat, fuel: nat)
    requires
        simple_lists(nb),
        symmetric_lists(nb),
        no_self(nb),
        no_double(nb, sel),
        visited.len() == nb.len(),
        nb.len() <= usize::MAX,
        closed(nb, sel, visited),
        forall|u: usize| #[trigger] is_anchor(nb, sel, u) ==> anchor_done(nb, sel, visited, u),
        fuel >= unvisited(visited),
    ensures
        forall|e: int| 0 <= e < loop_pass(nb, sel, visited, i, fuel).0.len() ==> {
            let c = #[trigger] loop_pass(nb, sel, visited, i, fuel).0[e];
            c.0.len() > 0 ==> c.0[0] == c.2 && is_interior(nb, sel, c.2) && forall|k: int| 0 <= k < c.0.len() ==> nb[c.0[k] as int].contains(after_in(c.0, c.2, k))
        },
    decreases sel.len() - i,
{
    if i < sel.len() {
        let v = sel[i as int];
        let (now, after) = if is_interior(nb, sel, v) {
            let (chain, end, after) = walk(nb, sel, visited, nb[v as int][0], v, fuel);
            (seq![(chain, nb[v as int][0], end)], after)
        } else {
            (Seq::empty(), visited)
        };
        if is_interior(nb, sel, v) {
            if visited[v as int] {
                assert(walk(nb, sel, visited, nb[v as int][0], v, fuel).0.len() == 0);
                assert(after == visited);
            } else {
                lemma_loop_walk(nb, sel, visited, v, fuel);
                let (chain, end, after2) = walk(nb, sel, visited, nb[v as int][0], v, fuel);
                lemma_unvisited_mono(visited, after2);
                assert forall|u: usize| #[trigger] is_anchor(nb, sel, u) implies anchor_done(nb, sel, after2, u) by {
                    assert(anchor_done(nb, sel, visited, u));
                    assert forall|y: usize| #[trigger] nb[u as int].contains(y) && is_interior(nb, sel, y) implies after2[y as int] by {
                        assert(y < nb.len());
                        assert(visited[y as int]);
                    }
                }
            }
        }
        lemma_loop_pass(nb, sel, after, i + 1, fuel);
        let rest = loop_pass(nb, sel, after, i + 1, fuel).0;
        let all = loop_pass(nb, sel, visited, i, fuel).0;
        assert(all == now + rest);
        assert forall|e: int| 0 <= e < all.len() implies {
            let c = #[trigger] all[e];
            c.0.len() > 0 ==> c.0[0] == c.2 && is_interior(nb, sel, c.2) && forall|k: int| 0 <= k < c.0.len() ==> nb[c.0[k] as int].contains(after_in(c.0, c.2, k))
        } by {
            if e < now.len() {
                assert(all[e] == now[e]);
            } else {
                assert(all[e] == rest[e - now.len()]);
            }
        }
    }
}

/// The neighbour lists of a well-formed mesh are symmetric, and with no edge from a
/// vertex to itself, no vertex is its own neighbour.
proof fn lemma_mesh_lists(mesh: MeshView)
    requires
        mesh.well_formed(),
        forall|e: int| 0 <= e < mesh.edges.len() ==> (#[trigger] mesh.edges[e])[0] != mesh.edges[e][1],
    ensures
        symmetric_lists(neighbour_lists(mesh)),
        no_self(neighbour_lists(mesh)),
{
    let nb = neighbour_lists(mesh);
    assert forall|x: usize, y: usize| x < nb.len() && y < nb.len() implies (#[trigger] nb[x as int].contains(y) <==> #[trigger] nb[y as int].contains(x)) by {
        crate::graph::lemma_neighbour_list(mesh.edges, x, y);
        crate::graph::lemma_neighbour_list(mesh.edges, y, x);
        if crate::graph::adjacent(mesh.edges, x, y) {
            let i = choose|i: int| 0 <= i < mesh.edges.len() && ((mesh.edges[i][0] == x && mesh.edges[i][1] == y) || (mesh.edges[i][0] == y && mesh.edges[i][1] == x));
            assert(crate::graph::adjacent(mesh.edges, y, x));
        }
        if crate::graph::adjacent(mesh.edges, y, x) {
            let i = choose|i: int| 0 <= i < mesh.edges.len() && ((mesh.edges[i][0] == y && mesh.edges[i][1] == x) || (mesh.edges[i][0] == x && mesh.edges[i][1] == y));
            assert(crate::graph::adjacent(mesh.edges, x, y));
        }
    }
    assert forall|x: usize| x < nb.len() implies !(#[trigger] nb[x as int]).contains(x) by {
        crate::graph::lemma_neighbour_list(mesh.edges, x, x);
        if crate::graph::adjacent(mesh.edges, x, x) {
            let i = choose|i: int| 0 <= i < mesh.edges.len() && ((mesh.edges[i][0] == x && mesh.edges[i][1] == x) || (mesh.edges[i][0] == x && mesh.edges[i][1] == x));
            assert(mesh.edges[i][0] != mesh.edges[i][1]);
        }
    }
}

proof fn lemma_filtered(all: Seq<Seq<usize>>, c: int)
    requires
        0 <= c < all.filter(|chain: Seq<usize>| chain.len() > 2).len(),
    ensures
        exists|k: int| 0 <= k < all.len() && all[k] == all.filter(|chain: Seq<usize>| chain.len() > 2)[c],
        all.filter(|chain: Seq<usize>| chain.len() > 2)[c].len() > 2,
{
    broadcast use vstd::seq_lib::group_filter_ensures;
    let keep = |chain: Seq<usize>| chain.len() > 2;
    let chain = all.filter(keep)[c];
    assert(all.filter(keep).contains(chain));
    all.lemma_filter_contains_rev(keep, chain);
    assert(all.contains(chain));
}

/// The walks of a selection: those out of chain ends start at a vertex that is not
/// interior, and each walk around a closed loop comes back to its first vertex, going
/// from neighbour to neighbour.
proof fn lemma_walks_of(mesh: MeshView, sel: Seq<usize>)
    requires
        mesh.well_formed(),
        mesh.vertices.len() <= usize::MAX,
        forall|e: int| 0 <= e < mesh.edges.len() ==> (#[trigger] mesh.edges[e])[0] != mesh.edges[e][1],
        no_double(neighbour_lists(mesh), sel),
    ensures
        ({
            let nb = neighbour_lists(mesh);
            let n = mesh.vertices.len();
            let (first, after) = anchor_pass(nb, sel, Seq::new(n, |v: int| false), 0, n);
            let second = loop_pass(nb, sel, after, 0, n).0;
            &&& forall|e: int| 0 <= e < first.len() ==> is_anchor(nb, sel, (#[trigger] first[e]).1)
                && anchor_walk_shape(nb, sel, first[e])
            &&& forall|e: int| 0 <= e < second.len() ==> {
                let c = #[trigger] second[e];
                c.0.len() > 0 ==> c.0[0] == c.2 && is_interior(nb, sel, c.2) && forall|k: int| 0 <= k < c.0.len() ==> nb[c.0[k] as int].contains(after_in(c.0, c.2, k))
            }
        }),
{
    let nb = neighbour_lists(mesh);
    let n = mesh.vertices.len();
    lemma_lists(mesh);
    lemma_mesh_lists(mesh);
    let fresh = Seq::new(n, |v: int| false);
    assert(closed(nb, sel, fresh));
    lemma_unvisited_bound(fresh);
    lemma_anchor_pass(nb, sel, fresh, 0, n);
    let (first, after) = anchor_pass(nb, sel, fresh, 0, n);
    lemma_unvisited_bound(after);
    assert forall|u: usize| #[trigger] is_anchor(nb, sel, u) implies anchor_done(nb, sel, after, u) by {
        let j = choose|j: int| 0 <= j < sel.len() && sel[j] == u;
        assert(is_anchor(nb, sel, sel[j]));
    }
    lemma_loop_pass(nb, sel, after, 0, n);
}

/// Every chain that spacing returns for a closed loop of selected interior vertices (a
/// chain whose first vertex is interior) comes back to its first vertex; every other
/// chain starts and stops at chain ends (selected vertices that are not interior); and in
/// every chain each vertex is joined by an edge to the next one, the last pair included.
/// A loop is spaced as a closed chain.
pub proof fn lemma_spacing_chains_shape(mesh: MeshView, sel: Seq<usize>)
    requires
        mesh.well_formed(),
        mesh.vertices.len() <= usize::MAX,
        forall|e: int| 0 <= e < mesh.edges.len() ==> (#[trigger] mesh.edges[e])[0] != mesh.edges[e][1],
        no_double(neighbour_lists(mesh), sel),
    ensures
        forall|c: int| 0 <= c < spacing_chains(mesh, sel).len() ==> ({
                let chain = #[trigger] spacing_chains(mesh, sel)[c];
                let nb = neighbour_lists(mesh);
                &&& is_interior(nb, sel, chain[0]) ==> chain.last() == chain[0]
                &&& !is_interior(nb, sel, chain[0]) ==> is_anchor(nb, sel, chain[0]) && is_anchor(nb, sel, chain.last())
                &&& forall|i: int| 0 <= i < chain.len() - 1 ==> nb[chain[i] as int].contains(#[trigger] chain[i + 1])
            }),
{
    let nb = neighbour_lists(mesh);
    let n = mesh.vertices.len();
    lemma_walks_of(mesh, sel);
    let (first, after) = anchor_pass(nb, sel, Seq::new(n, |v: int| false), 0, n);
    let second = loop_pass(nb, sel, after, 0, n).0;
    let all = first.map_values(|c: (Seq<usize>, usize, usize)| seq![c.1] + c.0 + seq![c.2])
        + second.map_values(|c: (Seq<usize>, usize, usize)| c.0 + seq![c.2]);
    assert(spacing_chains(mesh, sel) == all.filter(|chain: Seq<usize>| chain.len() > 2));
    assert forall|c: int| 0 <= c < spacing_chains(mesh, sel).len() implies ({
            let chain = #[trigger] spacing_chains(mesh, sel)[c];
            &&& is_interior(nb, sel, chain[0]) ==> chain.last() == chain[0]
            &&& !is_interior(nb, sel, chain[0]) ==> is_anchor(nb, sel, chain[0]) && is_anchor(nb, sel, chain.last())
            &&& forall|i: int| 0 <= i < chain.len() - 1 ==> nb[chain[i] as int].contains(#[trigger] chain[i + 1])
        }) by {
        let chain = spacing_chains(mesh, sel)[c];
        lemma_filtered(all, c);
        let k = choose|k: int| 0 <= k < all.len() && all[k] == chain;
        if k < first.len() {
            let e = first[k];
            assert(all[k] == seq![e.1] + e.0 + seq![e.2]);
            assert(e.0.len() > 0);
            assert(anchor_walk_shape(nb, sel, e));
            assert(chain[0] == e.1);
            assert(chain.last() == e.2);
            assert forall|i: int| 0 <= i < chain.len() - 1 implies nb[chain[i] as int].contains(#[trigger] chain[i + 1]) by {
                if i == 0 {
                    assert(chain[1] == e.0[0]);
                } else {
                    assert(chain[i] == e.0[i - 1]);
                    assert(chain[i + 1] == after_in(e.0, e.2, i - 1));
                }
            }
        } else {
            let e = second[k - first.len()];
            assert(all[k] == e.0 + seq![e.2]);
            assert(e.0.len() > 0);
            assert(chain[0] == e.0[0]);
            assert forall|i: int| 0 <= i < chain.len() - 1 implies nb[chain[i] as int].contains(#[trigger] chain[i + 1]) by {
                assert(chain[i] == e.0[i]);
                assert(chain[i + 1] == after_in(e.0, e.2, i));
            }
        }
    }
}

} // verus!

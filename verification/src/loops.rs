//! Edge loops: from an edge between selected vertices, walks that go on across each
//! vertex the way a table of turns says, until they come back to a vertex passed.
use crate::chains::{lemma_unvisited, lemma_unvisited_bound, neighbour_lists, unvisited};
use crate::history::views;
use crate::mesh::{Mesh, MeshView};
use crate::planar::position_of;
use vstd::prelude::*;

verus! {

/// A table of turns for the neighbour lists `nb`: for each vertex, one entry per
/// neighbour, naming a vertex or nothing.
pub open spec fn turns_fit(nb: Seq<Seq<usize>>, turns: Seq<Seq<Option<usize>>>) -> bool {
    &&& turns.len() == nb.len()
    &&& forall|v: int| 0 <= v < nb.len() ==> #[trigger] turns[v].len() == nb[v].len()
    &&& forall|v: int, k: int| 0 <= v < turns.len() && 0 <= k < turns[v].len()
        ==> match #[trigger] turns[v][k] {
            Some(x) => x < nb.len(),
            None => true,
        }
}

/// Where a walk entering `current` from `prev` goes on to: the turn recorded for the first
/// place of `prev` among the neighbours of `current`; nowhere if `prev` is not one.
pub open spec fn turn_of(nb: Seq<Seq<usize>>, turns: Seq<Seq<Option<usize>>>, prev: usize, current: usize) -> Option<usize> {
    let k = position_of(nb[current as int], prev);
    if k < nb[current as int].len() { turns[current as int][k] } else { None }
}

/// A walk from `prev` into `current`: each vertex it passes, until it reaches one marked
/// in `visited` (those it passed are marked as it goes) or the turns lead nowhere.
/// `fuel` bounds its length.
pub open spec fn loop_walk(nb: Seq<Seq<usize>>, turns: Seq<Seq<Option<usize>>>, visited: Seq<bool>, prev: usize,
    current: usize, fuel: nat) -> Seq<usize>
    decreases fuel,
{
    if fuel == 0 || current >= visited.len() || visited[current as int] {
        Seq::empty()
    } else {
        match turn_of(nb, turns, prev, current) {
            None => seq![current],
            Some(next) => seq![current] + loop_walk(nb, turns, visited.update(current as int, true), current, next,
                (fuel - 1) as nat),
        }
    }
}

/// The two walks along an edge from `a` to `b`: from `a` into `b`, then from `b` into
/// `a`, each with only its start marked.
pub open spec fn edge_walks(nb: Seq<Seq<usize>>, turns: Seq<Seq<Option<usize>>>, a: usize, b: usize) -> Seq<usize> {
    let fresh = Seq::new(nb.len(), |v: int| false);
    loop_walk(nb, turns, fresh.update(a as int, true), a, b, nb.len())
        + loop_walk(nb, turns, fresh.update(b as int, true), b, a, nb.len())
}

/// The vertices the edge loops pass: the walks along each edge whose ends are both among
/// `vertices`, edge by edge.
pub open spec fn loops_along(edges: Seq<Seq<usize>>, nb: Seq<Seq<usize>>, turns: Seq<Seq<Option<usize>>>,
    vertices: Seq<usize>) -> Seq<usize>
    decreases edges.len(),
{
    if edges.len() == 0 {
        Seq::empty()
    } else {
        let prior = loops_along(edges.drop_last(), nb, turns, vertices);
        let e = edges.last();
        if vertices.contains(e[0]) && vertices.contains(e[1]) { prior + edge_walks(nb, turns, e[0], e[1]) } else { prior }
    }
}

proof fn lemma_position_bounds(list: Seq<usize>, x: usize)
    ensures
        0 <= position_of(list, x) <= list.len(),
    decreases list.len(),
{
    if list.len() > 0 && list[0] != x {
        lemma_position_bounds(list.drop_first(), x);
    }
}

proof fn lemma_position_at(list: Seq<usize>, x: usize, k: int)
    requires
        0 <= k <= list.len(),
        k == list.len() || list[k] == x,
        forall|j: int| 0 <= j < k ==> list[j] != x,
    ensures
        position_of(list, x) == k,
    decreases k,
{
    if k > 0 {
        assert(list[0] != x);
        assert forall|j: int| 0 <= j < k - 1 implies list.drop_first()[j] != x by {
            assert(list.drop_first()[j] == list[j + 1]);
        }
        lemma_position_at(list.drop_first(), x, k - 1);
    }
}

/// The turn recorded for the first place of `prev` in `list`, if it is there.
fn turn_at(list: &Vec<usize>, choices: &Vec<Option<usize>>, prev: usize) -> (turn: Option<usize>)
    requires
        choices@.len() == list@.len(),
    ensures
        turn == (if position_of(list@, prev) < list@.len() { choices@[position_of(list@, prev)] } else { None }),
{
    let mut i: usize = 0;
    while i < list.len()
        invariant
            i <= list@.len() == choices@.len(),
            forall|j: int| 0 <= j < i ==> list@[j] != prev,
        decreases list@.len() - i,
    {
        if list[i] == prev {
            proof {
                lemma_position_at(list@, prev, i as int);
            }
            return choices[i];
        }
        i = i + 1;
    }
    proof {
        lemma_position_at(list@, prev, i as int);
    }
    None
}

/// Walks from `prev` into `current` (see `loop_walk`), adding what it passes to `found`.
fn walk_loop(lists: &Vec<Vec<usize>>, turns: &Vec<Vec<Option<usize>>>, found: &mut Vec<usize>, visited: &mut Vec<bool>,
    prev: usize, current: usize, Ghost(fuel): Ghost<nat>)
    requires
        turns_fit(views(lists@), views(turns@)),
        old(visited)@.len() == lists@.len(),
        current < lists@.len(),
        fuel >= unvisited(old(visited)@),
    ensures
        final(found)@ == old(found)@ + loop_walk(views(lists@), views(turns@), old(visited)@, prev, current, fuel),
{
    let ghost (nb, table) = (views(lists@), views(turns@));
    let ghost goal = old(found)@ + loop_walk(nb, table, old(visited)@, prev, current, fuel);
    let mut p = prev;
    let mut c = current;
    let ghost mut f = fuel;
    let mut going = true;
    while going && !visited[c]
        invariant
            nb == views(lists@),
            table == views(turns@),
            turns_fit(nb, table),
            visited@.len() == lists@.len(),
            c < lists@.len(),
            f >= unvisited(visited@),
            going ==> goal == found@ + loop_walk(nb, table, visited@, p, c, f),
            !going ==> goal == found@,
        decreases if going { f + 1 } else { f },
    {
        proof {
            lemma_unvisited(visited@, c as int);
        }
        let ghost marked = visited@.update(c as int, true);
        let ghost before = found@;
        visited.set(c, true);
        found.push(c);
        assert(nb[c as int] == lists@[c as int]@);
        assert(table[c as int] == turns@[c as int]@);
        let turn = turn_at(&lists[c], &turns[c], p);
        assert(turn == turn_of(nb, table, p, c));
        match turn {
            None => {
                assert(goal == before + seq![c]);
                going = false;
            },
            Some(next) => {
                proof {
                    let k = position_of(nb[c as int], p);
                    lemma_position_bounds(nb[c as int], p);
                    assert(nb.len() == lists@.len());
                    assert(table.len() == nb.len());
                    assert(k < nb[c as int].len());
                    assert(table[c as int].len() == nb[c as int].len());
                    assert(table[c as int][k] is Some);
                    assert(table[c as int][k]->0 == next);
                    assert(next < nb.len());
                    assert(before + (seq![c] + loop_walk(nb, table, marked, c, next, (f - 1) as nat))
                        =~= found@ + loop_walk(nb, table, marked, c, next, (f - 1) as nat));
                    f = (f - 1) as nat;
                }
                p = c;
                c = next;
            },
        }
    }
    proof {
        if going {
            assert(loop_walk(nb, table, visited@, p, c, f) == Seq::<usize>::empty());
            assert(found@ + Seq::<usize>::empty() =~= found@);
        }
    }
}

impl Mesh {
    /// The vertices along the edge loops through the edges between `vertices`: along each
    /// such edge, in order, both ways, a walk that goes on as `turns` says (for a walk
    /// entering vertex `v` from the `k`-th vertex its neighbour list names,
    /// `turns[v][k]` is where it goes next, if anywhere) until it comes back to a vertex
    /// it passed or to where it started.
    pub fn edge_loops(&self, vertices: &[usize], turns: &Vec<Vec<Option<usize>>>) -> (found: Vec<usize>)
        requires
            self@.well_formed(),
            turns_fit(neighbour_lists(self@), views(turns@)),
        ensures
            found@ == loops_along(self@.edges, neighbour_lists(self@), views(turns@), vertices@),
    {
        let ghost mesh = self@;
        let ghost nb = neighbour_lists(mesh);
        let ghost table = views(turns@);
        let lists = self.neighbours();
        assert(views(lists@) =~= nb);
        let n = self.vertices.len();
        let mut found: Vec<usize> = Vec::new();
        let mut i: usize = 0;
        while i < self.edges.len()
            invariant
                mesh == self@,
                mesh.well_formed(),
                nb == neighbour_lists(mesh),
                table == views(turns@),
                views(lists@) == nb,
                turns_fit(nb, table),
                n == lists@.len() == mesh.vertices.len(),
                i <= self.edges@.len(),
                found@ == loops_along(mesh.edges.take(i as int), nb, table, vertices@),
            decreases self.edges@.len() - i,
        {
            let e = self.edges[i];
            assert(mesh.edges[i as int] == e@);
            assert(mesh.edges[i as int].len() == 2);
            let (a, b) = (e[0], e[1]);
            proof {
                assert(mesh.edges.take(i + 1).drop_last() =~= mesh.edges.take(i as int));
                assert(mesh.edges.take(i + 1).last() == e@);
            }
            if crate::faces::listed(vertices, a) && crate::faces::listed(vertices, b) {
                let ghost prior = found@;
                let mut visited: Vec<bool> = Vec::new();
                let mut v: usize = 0;
                while v < n
                    invariant
                        v <= n,
                        visited@ == Seq::new(v as nat, |u: int| false),
                    decreases n - v,
                {
                    visited.push(false);
                    v = v + 1;
                    assert(visited@ =~= Seq::new(v as nat, |u: int| false));
                }
                let mut back = visited.clone();
                assert(back@ == visited@);
                let ghost fresh = visited@;
                assert(fresh =~= Seq::new(nb.len(), |u: int| false));
                visited.set(a, true);
                back.set(b, true);
                proof {
                    lemma_unvisited_bound(visited@);
                    lemma_unvisited_bound(back@);
                }
                walk_loop(&lists, turns, &mut found, &mut visited, a, b, Ghost(n as nat));
                walk_loop(&lists, turns, &mut found, &mut back, b, a, Ghost(n as nat));
                proof {
                    assert(found@ =~= prior + edge_walks(nb, table, a, b));
                }
            }
            i = i + 1;
        }
        proof {
            assert(mesh.edges.take(mesh.edges.len() as int) =~= mesh.edges);
        }
        found
    }
}

} // verus!

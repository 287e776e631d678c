use crate::chains::{lemma_unvisited, unvisited};
use crate::history::views;
use vstd::prelude::*;

verus! {

broadcast use vstd::seq_lib::group_seq_properties;

/// The first position of `x` in `list`.
pub open spec fn position_of(list: Seq<usize>, x: usize) -> int
    decreases list.len(),
{
    if list.len() == 0 || list[0] == x {
        0
    } else {
        1 + position_of(list.drop_first(), x)
    }
}

/// A rotation system: each vertex lists its neighbours in turning order, every listed
/// neighbour is a vertex, and lists the vertex back.
pub open spec fn rotation_ok(r: Seq<Seq<usize>>) -> bool {
    forall|v: int, s: int| 0 <= v < r.len() && 0 <= s < r[v].len() ==> {
        let t = #[trigger] r[v][s];
        &&& t < r.len()
        &&& r[t as int].contains(v as usize)
    }
}

/// The dart after the dart `(v, s)`, which leads from `v` to its neighbour `t` at slot
/// `s`: the one that leaves `t` by the entry before the one that leads back to `v`, in
/// turning order, the last one when that is the first.
pub open spec fn turn_from(r: Seq<Seq<usize>>, v: usize, s: int) -> (usize, int) {
    let t = r[v as int][s];
    let back = position_of(r[t as int], v);
    (t, if back == 0 { r[t as int].len() - 1 } else { back - 1 })
}

/// The marking `m` with the dart `(v, s)` marked.
pub open spec fn mark(m: Seq<Seq<bool>>, v: usize, s: int) -> Seq<Seq<bool>> {
    m.update(v as int, m[v as int].update(s, true))
}

/// The face traced from the dart `(v, s)`: the vertices the darts leave from, dart after
/// dart, until a marked dart is reached; and the marking after. `fuel` bounds its length.
pub open spec fn trace(r: Seq<Seq<usize>>, m: Seq<Seq<bool>>, v: usize, s: int, fuel: nat) -> (Seq<usize>, Seq<Seq<bool>>)
    decreases fuel,
{
    if fuel == 0 || m[v as int][s] {
        (Seq::empty(), m)
    } else {
        let (t, u) = turn_from(r, v, s);
        let (rest, after) = trace(r, mark(m, v, s), t, u, (fuel - 1) as nat);
        (seq![v] + rest, after)
    }
}

/// The faces traced from each dart in order, from the dart `(v, s)` on: vertex by vertex,
/// slot by slot; a dart marked before gives an empty face.
pub open spec fn faces_from(r: Seq<Seq<usize>>, m: Seq<Seq<bool>>, v: nat, s: nat, fuel: nat) -> Seq<Seq<usize>>
    decreases r.len() - v, if v < r.len() { r[v as int].len() - s } else { 0 },
{
    if v >= r.len() {
        Seq::empty()
    } else if s >= r[v as int].len() {
        faces_from(r, m, v + 1, 0, fuel)
    } else {
        let (face, after) = trace(r, m, v as usize, s as int, fuel);
        seq![face] + faces_from(r, after, v, s + 1, fuel)
    }
}

/// A marking with no dart marked.
pub open spec fn fresh_marks(r: Seq<Seq<usize>>) -> Seq<Seq<bool>> {
    Seq::new(r.len(), |v: int| Seq::new(r[v].len(), |s: int| false))
}

/// How many darts of a marking are not marked.
pub open spec fn open_darts(m: Seq<Seq<bool>>) -> nat
    decreases m.len(),
{
    if m.len() == 0 {
        0
    } else {
        open_darts(m.drop_last()) + unvisited(m.last())
    }
}

/// The faces of a rotation system: traced from each dart in turn (see `faces_from`),
/// with as much fuel as there are darts.
pub open spec fn traced_faces(r: Seq<Seq<usize>>) -> Seq<Seq<usize>> {
    faces_from(r, fresh_marks(r), 0, 0, open_darts(fresh_marks(r)))
}

/// The marking has a row for each vertex, with an entry for each neighbour.
pub open spec fn fits_rotation(r: Seq<Seq<usize>>, m: Seq<Seq<bool>>) -> bool {
    &&& m.len() == r.len()
    &&& forall|v: int| 0 <= v < r.len() ==> #[trigger] m[v].len() == r[v].len()
}

proof fn lemma_open_darts_update(m: Seq<Seq<bool>>, v: int, row: Seq<bool>)
    requires
        0 <= v < m.len(),
    ensures
        open_darts(m.update(v, row)) + unvisited(m[v]) == open_darts(m) + unvisited(row),
    decreases m.len(),
{
    if v == m.len() - 1 {
        assert(m.update(v, row).drop_last() =~= m.drop_last());
    } else {
        assert(m.update(v, row).drop_last() =~= m.drop_last().update(v, row));
        lemma_open_darts_update(m.drop_last(), v, row);
    }
}

/// Marking an unmarked dart leaves one fewer open.
proof fn lemma_mark(m: Seq<Seq<bool>>, v: usize, s: int)
    requires
        0 <= v < m.len(),
        0 <= s < m[v as int].len(),
        !m[v as int][s],
    ensures
        open_darts(m) >= 1,
        open_darts(mark(m, v, s)) == open_darts(m) - 1,
{
    lemma_unvisited(m[v as int], s);
    lemma_open_darts_update(m, v as int, m[v as int].update(s, true));
}

proof fn lemma_position_of(list: Seq<usize>, x: usize)
    requires
        list.contains(x),
    ensures
        0 <= position_of(list, x) < list.len(),
        list[position_of(list, x)] == x,
    decreases list.len(),
{
    if list[0] != x {
        let k = choose|k: int| 0 <= k < list.len() && list[k] == x;
        assert(list.drop_first()[k - 1] == x);
        lemma_position_of(list.drop_first(), x);
    }
}

proof fn lemma_position_first(list: Seq<usize>, x: usize, k: int)
    requires
        0 <= k < list.len(),
        list[k] == x,
        forall|j: int| 0 <= j < k ==> list[j] != x,
    ensures
        position_of(list, x) == k,
    decreases k,
{
    if k > 0 {
        assert(list[0] != x);
        assert forall|j: int| 0 <= j < k - 1 implies list.drop_first()[j] != x by {
            assert(list.drop_first()[j] == list[j + 1]);
        }
        lemma_position_first(list.drop_first(), x, k - 1);
    }
}

/// The first position of `x` in `list`, which holds it.
fn position(list: &Vec<usize>, x: usize) -> (p: usize)
    requires
        list@.contains(x),
    ensures
        p == position_of(list@, x),
        p < list@.len(),
{
    let mut i: usize = 0;
    while i < list.len()
        invariant
            i <= list@.len(),
            list@.contains(x),
            forall|j: int| 0 <= j < i ==> list@[j] != x,
        decreases list@.len() - i,
    {
        if list[i] == x {
            proof {
                lemma_position_first(list@, x, i as int);
            }
            return i;
        }
        i = i + 1;
    }
    proof {
        let k = choose|k: int| 0 <= k < list@.len() && list@[k] == x;
        assert(list@[k] != x);
    }
    0
}

/// Traces the face from the dart `(start, start_slot)`, marking its darts (see `trace`).
fn trace_from(r: &Vec<Vec<usize>>, visited: &mut Vec<Vec<bool>>, start: usize, start_slot: usize, Ghost(fuel): Ghost<nat>)
    -> (face: Vec<usize>)
    requires
        rotation_ok(views(r@)),
        fits_rotation(views(r@), views(old(visited)@)),
        start < r@.len(),
        start_slot < r@[start as int]@.len(),
        fuel >= open_darts(views(old(visited)@)),
    ensures
        (face@, views(final(visited)@)) == trace(views(r@), views(old(visited)@), start, start_slot as int, fuel),
        fits_rotation(views(r@), views(final(visited)@)),
        open_darts(views(final(visited)@)) <= open_darts(views(old(visited)@)),
{
    let ghost rr = views(r@);
    let ghost initial = views(visited@);
    let mut face: Vec<usize> = Vec::new();
    let mut from = start;
    let mut slot = start_slot;
    let ghost mut f = fuel;
    assert(face@ + trace(rr, initial, from, slot as int, f).0 =~= trace(rr, initial, from, slot as int, f).0);
    while !visited[from][slot]
        invariant
            rr == views(r@),
            rotation_ok(rr),
            fits_rotation(rr, views(visited@)),
            from < r@.len(),
            slot < r@[from as int]@.len(),
            f >= open_darts(views(visited@)),
            open_darts(views(visited@)) <= open_darts(initial),
            face@ + trace(rr, views(visited@), from, slot as int, f).0 == trace(rr, initial, start, start_slot as int, fuel).0,
            trace(rr, views(visited@), from, slot as int, f).1 == trace(rr, initial, start, start_slot as int, fuel).1,
        decreases open_darts(views(visited@)),
    {
        let ghost m = views(visited@);
        let ghost prior = face@;
        proof {
            assert(m[from as int] == visited@[from as int]@);
            lemma_mark(m, from, slot as int);
        }
        visited[from][slot] = true;
        proof {
            assert(views(visited@) =~= mark(m, from, slot as int));
        }
        face.push(from);
        let to = r[from][slot];
        proof {
            assert(rr[from as int][slot as int] == to);
            assert(rr[to as int] == r@[to as int]@);
        }
        let count = r[to].len();
        let back = position(&r[to], from);
        let next = if back == 0 { count - 1 } else { back - 1 };
        proof {
            let (t, u) = turn_from(rr, from, slot as int);
            assert(t == to && u == next as int);
            let (rest, after) = trace(rr, mark(m, from, slot as int), t, u, (f - 1) as nat);
            assert(trace(rr, m, from, slot as int, f) == (seq![from] + rest, after));
            assert(face@ + rest =~= prior + (seq![from] + rest));
            assert forall|v: int| 0 <= v < rr.len() implies #[trigger] views(visited@)[v].len() == rr[v].len() by {
                assert(views(visited@)[v] == mark(m, from, slot as int)[v]);
            }
        }
        slot = next;
        from = to;
        proof {
            f = (f - 1) as nat;
        }
    }
    proof {
        assert(views(visited@)[from as int] == visited@[from as int]@);
        assert(face@ + Seq::<usize>::empty() =~= face@);
    }
    face
}

/// The faces of a rotation system (see `traced_faces`): from each dart not yet on a face,
/// dart after dart, the vertices passed until the face closes.
pub fn trace_faces(rotation: &Vec<Vec<usize>>) -> (faces: Vec<Vec<usize>>)
    requires
        rotation_ok(views(rotation@)),
    ensures
        views(faces@) == traced_faces(views(rotation@)),
{
    let ghost rr = views(rotation@);
    let n = rotation.len();
    let mut visited: Vec<Vec<bool>> = Vec::new();
    let mut v: usize = 0;
    while v < n
        invariant
            n == rotation@.len(),
            rr == views(rotation@),
            v <= n,
            views(visited@) == fresh_marks(rr).take(v as int),
        decreases n - v,
    {
        let mut row: Vec<bool> = Vec::new();
        let mut s: usize = 0;
        while s < rotation[v].len()
            invariant
                n == rotation@.len(),
                v < n,
                s <= rotation@[v as int]@.len(),
                row@ == Seq::new(s as nat, |k: int| false),
            decreases rotation@[v as int]@.len() - s,
        {
            row.push(false);
            s = s + 1;
            assert(row@ =~= Seq::new(s as nat, |k: int| false));
        }
        let ghost prior = views(visited@);
        visited.push(row);
        proof {
            assert(rr[v as int] == rotation@[v as int]@);
            assert(fresh_marks(rr)[v as int] =~= row@);
            assert(views(visited@) =~= prior.push(row@));
            assert(fresh_marks(rr).take(v + 1) =~= fresh_marks(rr).take(v as int).push(fresh_marks(rr)[v as int]));
        }
        v = v + 1;
    }
    let ghost fuel = open_darts(fresh_marks(rr));
    proof {
        assert(fresh_marks(rr).take(n as int) =~= fresh_marks(rr));
    }
    let mut faces: Vec<Vec<usize>> = Vec::new();
    let mut v: usize = 0;
    while v < n
        invariant
            n == rotation@.len(),
            rr == views(rotation@),
            rotation_ok(rr),
            v <= n,
            fits_rotation(rr, views(visited@)),
            fuel >= open_darts(views(visited@)),
            fuel == open_darts(fresh_marks(rr)),
            views(faces@) + faces_from(rr, views(visited@), v as nat, 0, fuel) == traced_faces(rr),
        decreases n - v,
    {
        let mut s: usize = 0;
        while s < rotation[v].len()
            invariant
                n == rotation@.len(),
                rr == views(rotation@),
                rotation_ok(rr),
                v < n,
                s <= rr[v as int].len(),
                fits_rotation(rr, views(visited@)),
                fuel >= open_darts(views(visited@)),
                views(faces@) + faces_from(rr, views(visited@), v as nat, s as nat, fuel) == traced_faces(rr),
            decreases rr[v as int].len() - s,
        {
            proof {
                assert(rr[v as int] == rotation@[v as int]@);
            }
            let ghost m = views(visited@);
            let ghost prior = views(faces@);
            let face = trace_from(rotation, &mut visited, v, s, Ghost(fuel));
            proof {
                let (traced, after) = trace(rr, m, v, s as int, fuel);
                assert(faces_from(rr, m, v as nat, s as nat, fuel) == seq![traced] + faces_from(rr, after, v as nat, (s + 1) as nat, fuel));
            }
            faces.push(face);
            proof {
                assert(views(faces@) =~= prior.push(face@));
                assert(prior.push(face@) + faces_from(rr, views(visited@), v as nat, (s + 1) as nat, fuel)
                    =~= prior + (seq![face@] + faces_from(rr, views(visited@), v as nat, (s + 1) as nat, fuel)));
            }
            s = s + 1;
        }
        proof {
            assert(rr[v as int] == rotation@[v as int]@);
            assert(faces_from(rr, views(visited@), v as nat, s as nat, fuel) == faces_from(rr, views(visited@), (v + 1) as nat, 0, fuel));
        }
        v = v + 1;
    }
    proof {
        assert(views(faces@) + Seq::<Seq<usize>>::empty() =~= views(faces@));
    }
    faces
}

} // verus!

verus! {

/// How many entries the lists hold together.
pub open spec fn entries(lists: Seq<Seq<usize>>) -> nat
    decreases lists.len(),
{
    if lists.len() == 0 {
        0
    } else {
        entries(lists.drop_last()) + lists.last().len()
    }
}

/// The vertices below `k` with exactly one neighbour, in increasing order.
pub open spec fn leaves_below(lists: Seq<Seq<usize>>, k: nat) -> Seq<usize>
    decreases k,
{
    if k == 0 {
        Seq::empty()
    } else {
        leaves_below(lists, (k - 1) as nat) + if lists[k - 1].len() == 1 { seq![(k - 1) as usize] } else { Seq::empty() }
    }
}

/// One step of pruning: the leaf on top of `stack` drops its last neighbour, which
/// forgets the leaf and becomes a leaf itself when one neighbour is left; a leaf with no
/// neighbour left is passed over.
pub open spec fn prune_step(lists: Seq<Seq<usize>>, stack: Seq<usize>) -> (Seq<Seq<usize>>, Seq<usize>) {
    let leaf = stack.last();
    let rest = stack.drop_last();
    if lists[leaf as int].len() == 0 {
        (lists, rest)
    } else {
        let neighbour = lists[leaf as int].last();
        let dropped = lists.update(leaf as int, lists[leaf as int].drop_last());
        let after = dropped.update(neighbour as int, dropped[neighbour as int].filter(|v: usize| v != leaf));
        (after, if after[neighbour as int].len() == 1 { rest.push(neighbour) } else { rest })
    }
}

/// The lists once the leaves on `stack`, and those they leave behind, are pruned;
/// `fuel` bounds the steps.
pub open spec fn pruned(lists: Seq<Seq<usize>>, stack: Seq<usize>, fuel: nat) -> Seq<Seq<usize>>
    decreases fuel,
{
    if fuel == 0 || stack.len() == 0 {
        lists
    } else {
        let (next, left) = prune_step(lists, stack);
        pruned(next, left, (fuel - 1) as nat)
    }
}

/// The neighbour lists with the dangling chains pruned away, leaf by leaf, from the
/// vertices that start with one neighbour (see `prune_step`).
pub open spec fn pruned_lists(lists: Seq<Seq<usize>>) -> Seq<Seq<usize>> {
    let stack = leaves_below(lists, lists.len());
    pruned(lists, stack, 2 * entries(lists) + stack.len())
}

/// Every listed neighbour is a vertex of the lists.
pub open spec fn within(lists: Seq<Seq<usize>>) -> bool {
    forall|v: int, j: int| 0 <= v < lists.len() && 0 <= j < lists[v].len() ==> #[trigger] lists[v][j] < lists.len()
}

proof fn lemma_entries_update(lists: Seq<Seq<usize>>, v: int, row: Seq<usize>)
    requires
        0 <= v < lists.len(),
    ensures
        entries(lists.update(v, row)) + lists[v].len() == entries(lists) + row.len(),
    decreases lists.len(),
{
    if v == lists.len() - 1 {
        assert(lists.update(v, row).drop_last() =~= lists.drop_last());
    } else {
        assert(lists.update(v, row).drop_last() =~= lists.drop_last().update(v, row));
        lemma_entries_update(lists.drop_last(), v, row);
    }
}

proof fn lemma_leaves_below(lists: Seq<Seq<usize>>, k: nat)
    requires
        k <= lists.len(),
    ensures
        leaves_below(lists, k).len() <= k,
        forall|i: int| 0 <= i < leaves_below(lists, k).len() ==> #[trigger] leaves_below(lists, k)[i] < k,
    decreases k,
{
    if k > 0 {
        lemma_leaves_below(lists, (k - 1) as nat);
    }
}

/// A pruning step keeps the entries among the vertices, keeps the stack's entries
/// vertices, and lowers `2 * entries + stack length`.
proof fn lemma_prune_step(lists: Seq<Seq<usize>>, stack: Seq<usize>)
    requires
        within(lists),
        stack.len() > 0,
        forall|i: int| 0 <= i < stack.len() ==> #[trigger] stack[i] < lists.len(),
    ensures
        ({
            let (next, left) = prune_step(lists, stack);
            &&& next.len() == lists.len()
            &&& within(next)
            &&& forall|i: int| 0 <= i < left.len() ==> #[trigger] left[i] < lists.len()
            &&& 2 * entries(next) + left.len() < 2 * entries(lists) + stack.len()
        }),
{
    let leaf = stack.last();
    let rest = stack.drop_last();
    if lists[leaf as int].len() > 0 {
        let neighbour = lists[leaf as int].last();
        assert(lists[leaf as int][lists[leaf as int].len() - 1] == neighbour);
        let dropped = lists.update(leaf as int, lists[leaf as int].drop_last());
        let kept = dropped[neighbour as int].filter(|v: usize| v != leaf);
        let after = dropped.update(neighbour as int, kept);
        lemma_entries_update(lists, leaf as int, lists[leaf as int].drop_last());
        lemma_entries_update(dropped, neighbour as int, kept);
        dropped[neighbour as int].lemma_filter_len(|v: usize| v != leaf);
        assert forall|v: int, j: int| 0 <= v < after.len() && 0 <= j < after[v].len() implies #[trigger] after[v][j] < after.len() by {
            if v == neighbour as int {
                assert(kept.contains(after[v][j]));
                let k = choose|k: int| 0 <= k < kept.len() && kept[k] == after[v][j];
                assert(kept[k] == after[v][j]);
                lemma_filter_member(dropped[neighbour as int], |w: usize| w != leaf, k);
                let q = choose|q: int| 0 <= q < dropped[neighbour as int].len() && dropped[neighbour as int][q] == kept[k];
                if neighbour as int == leaf as int {
                    assert(dropped[neighbour as int][q] == lists[leaf as int][q]);
                } else {
                    assert(dropped[neighbour as int][q] == lists[neighbour as int][q]);
                }
            } else if v == leaf as int {
                assert(after[v][j] == lists[leaf as int][j]);
            } else {
                assert(after[v][j] == lists[v][j]);
            }
        }
    }
}

/// An item of a filtered sequence comes from the sequence.
proof fn lemma_filter_member(s: Seq<usize>, pred: spec_fn(usize) -> bool, k: int)
    requires
        0 <= k < s.filter(pred).len(),
    ensures
        s.contains(s.filter(pred)[k]),
    decreases s.len(),
{
    reveal(Seq::filter);
    if s.len() > 0 {
        let f = s.drop_last().filter(pred);
        if pred(s.last()) && k == f.len() {
            assert(s.filter(pred)[k] == s[s.len() - 1]);
        } else {
            assert(s.filter(pred)[k] == f[k]);
            lemma_filter_member(s.drop_last(), pred, k);
            let q = choose|q: int| 0 <= q < s.drop_last().len() && s.drop_last()[q] == f[k];
            assert(s[q] == f[k]);
        }
    }
}

/// The list without the entries equal to `x`.
fn without_entry(list: &Vec<usize>, x: usize) -> (out: Vec<usize>)
    ensures
        out@ == list@.filter(|v: usize| v != x),
{
    let ghost pred = |v: usize| v != x;
    let mut out: Vec<usize> = Vec::new();
    let mut i: usize = 0;
    while i < list.len()
        invariant
            i <= list@.len(),
            pred == |v: usize| v != x,
            out@ == list@.take(i as int).filter(pred),
        decreases list@.len() - i,
    {
        proof {
            assert(list@.take(i + 1) =~= list@.take(i as int).push(list@[i as int]));
            list@.take(i as int).lemma_filter_push(list@[i as int], pred);
        }
        if list[i] != x {
            out.push(list[i]);
        }
        i = i + 1;
    }
    assert(list@.take(list@.len() as int) =~= list@);
    out
}

/// Prunes the dangling chains from the neighbour lists (see `pruned_lists`): what is
/// left are the vertices on cycles and the paths between them.
pub fn prune_leaves(neighbours: Vec<Vec<usize>>) -> (pruned: Vec<Vec<usize>>)
    requires
        within(views(neighbours@)),
    ensures
        views(pruned@) == pruned_lists(views(neighbours@)),
        within(views(pruned@)),
{
    let ghost start = views(neighbours@);
    let mut lists = neighbours;
    let n = lists.len();
    let mut leaves: Vec<usize> = Vec::new();
    let mut v: usize = 0;
    while v < n
        invariant
            n == lists@.len(),
            views(lists@) == start,
            v <= n,
            leaves@ == leaves_below(start, v as nat),
        decreases n - v,
    {
        proof {
            assert(start[v as int] == lists@[v as int]@);
        }
        if lists[v].len() == 1 {
            leaves.push(v);
        }
        v = v + 1;
    }
    let ghost fuel = 2 * entries(start) + leaves@.len();
    let ghost mut f = fuel;
    proof {
        lemma_leaves_below(start, n as nat);
    }
    while leaves.len() > 0
        invariant
            n == lists@.len(),
            views(lists@).len() == n,
            within(views(lists@)),
            forall|i: int| 0 <= i < leaves@.len() ==> #[trigger] leaves@[i] < n,
            f >= 2 * entries(views(lists@)) + leaves@.len(),
            pruned(views(lists@), leaves@, f) == pruned(start, leaves_below(start, start.len()), fuel),
        decreases 2 * entries(views(lists@)) + leaves@.len(),
    {
        let ghost (before, stack) = (views(lists@), leaves@);
        proof {
            lemma_prune_step(before, stack);
            assert(pruned(before, stack, f) == pruned(prune_step(before, stack).0, prune_step(before, stack).1, (f - 1) as nat));
        }
        let leaf = match leaves.pop() {
            Some(leaf) => leaf,
            None => 0,
        };
        proof {
            assert(leaf == stack.last());
            assert(before[leaf as int] == lists@[leaf as int]@);
        }
        let dropped = lists[leaf].pop();
        match dropped {
            None => {
                proof {
                    assert(views(lists@) =~= before);
                }
            },
            Some(neighbour) => {
                proof {
                    assert(neighbour == before[leaf as int].last());
                    assert(views(lists@) =~= before.update(leaf as int, before[leaf as int].drop_last()));
                    assert(neighbour < n);
                }
                let kept = without_entry(&lists[neighbour], leaf);
                lists[neighbour] = kept;
                let ghost after = views(lists@);
                proof {
                    let d = before.update(leaf as int, before[leaf as int].drop_last());
                    assert(after =~= d.update(neighbour as int, d[neighbour as int].filter(|v: usize| v != leaf)));
                    assert(after[neighbour as int] == lists@[neighbour as int]@);
                }
                if lists[neighbour].len() == 1 {
                    leaves.push(neighbour);
                }
            },
        }
        proof {
            assert(views(lists@) == prune_step(before, stack).0);
            assert(leaves@ =~= prune_step(before, stack).1);
            f = (f - 1) as nat;
        }
    }
    proof {
        assert(pruned(views(lists@), leaves@, f) == views(lists@));
    }
    lists
}

} // verus!

verus! {

/// How many vertices the faces hold in all.
pub open spec fn total_len(faces: Seq<Seq<usize>>) -> nat
    decreases faces.len(),
{
    if faces.len() == 0 { 0 } else { faces[0].len() + total_len(faces.drop_first()) }
}

/// How many darts a rotation system has: one per entry of its neighbour lists.
pub open spec fn dart_count(r: Seq<Seq<usize>>) -> nat
    decreases r.len(),
{
    if r.len() == 0 { 0 } else { dart_count(r.drop_last()) + r.last().len() }
}

proof fn lemma_row_counts(row: Seq<bool>)
    ensures
        (forall|t: int| 0 <= t < row.len() ==> row[t]) ==> unvisited(row) == 0,
        (forall|t: int| 0 <= t < row.len() ==> !row[t]) ==> unvisited(row) == row.len(),
    decreases row.len(),
{
    if row.len() > 0 {
        lemma_row_counts(row.drop_last());
        assert(row[row.len() - 1] == row.last());
    }
}

proof fn lemma_all_marked(m: Seq<Seq<bool>>)
    requires
        forall|w: int, t: int| 0 <= w < m.len() && 0 <= t < m[w].len() ==> #[trigger] m[w][t],
    ensures
        open_darts(m) == 0,
    decreases m.len(),
{
    if m.len() > 0 {
        let prior = m.drop_last();
        assert forall|w: int, t: int| 0 <= w < prior.len() && 0 <= t < prior[w].len() implies #[trigger] prior[w][t] by {
            assert(prior[w] == m[w]);
        }
        lemma_all_marked(prior);
        let last = m.last();
        assert forall|t: int| 0 <= t < last.len() implies last[t] by {
            assert(m[m.len() - 1] == last);
        }
        lemma_row_counts(last);
    }
}

proof fn lemma_fresh_count(r: Seq<Seq<usize>>)
    ensures
        open_darts(fresh_marks(r)) == dart_count(r),
    decreases r.len(),
{
    if r.len() > 0 {
        let prior = r.drop_last();
        lemma_fresh_count(prior);
        assert(fresh_marks(r).drop_last() =~= fresh_marks(prior));
        let row = fresh_marks(r).last();
        assert(row == fresh_marks(r)[r.len() - 1]);
        lemma_row_counts(row);
    }
}

/// A trace marks as many darts as its face holds vertices, its first dart among them,
/// and unmarks none.
proof fn lemma_trace_count(r: Seq<Seq<usize>>, m: Seq<Seq<bool>>, v: usize, s: int, fuel: nat)
    requires
        rotation_ok(r),
        fits_rotation(r, m),
        v < r.len(),
        0 <= s < r[v as int].len(),
        fuel >= open_darts(m),
    ensures
        ({
            let (face, after) = trace(r, m, v, s, fuel);
            &&& fits_rotation(r, after)
            &&& open_darts(after) + face.len() == open_darts(m)
            &&& after[v as int][s]
            &&& forall|w: int, t: int| 0 <= w < m.len() && 0 <= t < m[w].len() && #[trigger] m[w][t] ==> after[w][t]
        }),
    decreases fuel,
{
    if !m[v as int][s] {
        lemma_mark(m, v, s);
        let marked = mark(m, v, s);
        let (t, u) = turn_from(r, v, s);
        assert(t == r[v as int][s]);
        assert(t < r.len() && r[t as int].contains(v));
        lemma_position_of(r[t as int], v);
        assert forall|w: int| 0 <= w < r.len() implies #[trigger] marked[w].len() == r[w].len() by {
            assert(marked[w].len() == m[w].len());
        }
        lemma_trace_count(r, marked, t, u, (fuel - 1) as nat);
        let (rest, after) = trace(r, marked, t, u, (fuel - 1) as nat);
        assert(trace(r, m, v, s, fuel) == (seq![v] + rest, after));
        assert(marked[v as int][s]);
        assert forall|w: int, q: int| 0 <= w < m.len() && 0 <= q < m[w].len() && #[trigger] m[w][q] implies after[w][q] by {
            assert(marked[w][q]);
        }
    }
}

/// The faces traced from the dart `(v, s)` on, with every dart before it marked, hold
/// as many vertices in all as there are darts open.
proof fn lemma_faces_count(r: Seq<Seq<usize>>, m: Seq<Seq<bool>>, v: nat, s: nat, fuel: nat)
    requires
        rotation_ok(r),
        fits_rotation(r, m),
        r.len() <= usize::MAX,
        v <= r.len(),
        v < r.len() ==> s <= r[v as int].len(),
        fuel >= open_darts(m),
        forall|w: int, t: int| 0 <= w < r.len() && 0 <= t < r[w].len() && (w < v || (w == v && t < s)) ==> #[trigger] m[w][t],
    ensures
        total_len(faces_from(r, m, v, s, fuel)) == open_darts(m),
    decreases r.len() - v, if v < r.len() { r[v as int].len() - s } else { 0 },
{
    if v >= r.len() {
        assert forall|w: int, t: int| 0 <= w < m.len() && 0 <= t < m[w].len() implies #[trigger] m[w][t] by {}
        lemma_all_marked(m);
    } else if s >= r[v as int].len() {
        lemma_faces_count(r, m, v + 1, 0, fuel);
    } else {
        lemma_trace_count(r, m, v as usize, s as int, fuel);
        let (face, after) = trace(r, m, v as usize, s as int, fuel);
        assert forall|w: int, t: int| 0 <= w < r.len() && 0 <= t < r[w].len() && (w < v || (w == v && t < s + 1))
            implies #[trigger] after[w][t] by {
            if w == v && t == s {
            } else {
                assert(m[w][t]);
            }
        }
        lemma_faces_count(r, after, v, s + 1, fuel);
        let all = faces_from(r, m, v, s, fuel);
        assert(all == seq![face] + faces_from(r, after, v, s + 1, fuel));
        assert(all.drop_first() =~= faces_from(r, after, v, s + 1, fuel));
    }
}

/// Tracing the faces of a rotation system passes every dart once: the faces hold, in
/// all, as many vertices as the neighbour lists hold entries, one for each dart.
pub proof fn lemma_faces_cover_darts(r: Seq<Seq<usize>>)
    requires
        rotation_ok(r),
        r.len() <= usize::MAX,
    ensures
        total_len(traced_faces(r)) == dart_count(r),
{
    let m = fresh_marks(r);
    assert forall|w: int| 0 <= w < r.len() implies #[trigger] m[w].len() == r[w].len() by {}
    lemma_faces_count(r, m, 0, 0, open_darts(m));
    lemma_fresh_count(r);
}

} // verus!

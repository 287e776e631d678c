use crate::faces::listed;
use crate::mesh::Mesh;
use vstd::prelude::*;

verus! {

broadcast use vstd::seq_lib::group_seq_properties;

/// The selection once the vertices of `more` that it lacks are added, in their order.
pub open spec fn extended(selection: Seq<usize>, more: Seq<usize>) -> Seq<usize>
    decreases more.len(),
{
    if more.len() == 0 {
        selection
    } else {
        let prior = extended(selection, more.drop_last());
        if prior.contains(more.last()) { prior } else { prior.push(more.last()) }
    }
}

/// Adds the vertices of `more` that the selection lacks, in their order.
pub fn extend_selection(selection: &mut Vec<usize>, more: &[usize])
    ensures
        final(selection)@ == extended(old(selection)@, more@),
{
    let mut i: usize = 0;
    while i < more.len()
        invariant
            i <= more@.len(),
            selection@ == extended(old(selection)@, more@.take(i as int)),
        decreases more@.len() - i,
    {
        proof {
            assert(more@.take(i + 1).drop_last() =~= more@.take(i as int));
            assert(more@.take(i + 1).last() == more@[i as int]);
        }
        if !listed(selection.as_slice(), more[i]) {
            selection.push(more[i]);
        }
        i = i + 1;
    }
    assert(more@.take(more@.len() as int) =~= more@);
}

/// The entries of `list` for which `keep` holds.
fn retain_where(list: &Vec<usize>, Ghost(keep): Ghost<spec_fn(usize) -> bool>, flags: &Vec<bool>) -> (kept: Vec<usize>)
    requires
        flags@.len() == list@.len(),
        forall|i: int| 0 <= i < list@.len() ==> #[trigger] flags@[i] == keep(list@[i]),
    ensures
        kept@ == list@.filter(keep),
{
    let mut kept: Vec<usize> = Vec::new();
    let mut i: usize = 0;
    while i < list.len()
        invariant
            i <= list@.len(),
            flags@.len() == list@.len(),
            forall|j: int| 0 <= j < list@.len() ==> #[trigger] flags@[j] == keep(list@[j]),
            kept@ == list@.take(i as int).filter(keep),
        decreases list@.len() - i,
    {
        proof {
            assert(list@.take(i + 1) =~= list@.take(i as int).push(list@[i as int]));
            list@.take(i as int).lemma_filter_push(list@[i as int], keep);
        }
        if flags[i] {
            kept.push(list[i]);
        }
        i = i + 1;
    }
    assert(list@.take(list@.len() as int) =~= list@);
    kept
}

/// The position of the first entry `x` of `list`.
pub open spec fn first_entry(list: Seq<usize>, x: usize) -> int {
    choose|k: int| 0 <= k < list.len() && list[k] == x && !list.take(k).contains(x)
}

/// The selection after a click on vertex `hit` (see `select`).
pub open spec fn clicked(selection: Seq<usize>, hit: Option<usize>, shift: bool) -> Seq<usize> {
    match hit {
        None => if shift { selection } else { Seq::empty() },
        Some(index) => if selection.contains(index) {
            if shift { selection.remove(first_entry(selection, index)) } else { selection }
        } else if shift {
            selection.push(index)
        } else {
            seq![index]
        },
    }
}

/// Clicking a vertex that is not selected twice with shift held leaves the selection
/// as it was: the first click adds it, the second takes it away.
pub proof fn lemma_shift_click_twice(selection: Seq<usize>, index: usize)
    requires
        !selection.contains(index),
    ensures
        clicked(clicked(selection, Some(index), true), Some(index), true) == selection,
{
    let once = selection.push(index);
    assert(once[selection.len() as int] == index);
    assert(once.take(selection.len() as int) =~= selection);
    let k = first_entry(once, index);
    assert(0 <= k < once.len() && once[k] == index && !once.take(k).contains(index));
    if k < selection.len() {
        assert(selection[k] == index);
    }
    assert(once.remove(selection.len() as int) =~= selection);
}

/// A click on vertex `hit` (none when the click missed). Without `shift` the vertex
/// becomes the selection, unless it is selected already; with `shift` it is added, or
/// taken away when it is selected. Returns whether a grab starts, and then the vertex
/// to move alone, which is the hit vertex when other vertices stay selected without
/// `shift`. A missed click without `shift` clears the selection.
pub fn select(selection: &mut Vec<usize>, hit: Option<usize>, shift: bool) -> (grab: Option<Option<usize>>)
    ensures
        final(selection)@ == clicked(old(selection)@, hit, shift),
        grab == match hit {
            None => None,
            Some(index) => if old(selection)@.contains(index) && shift {
                None
            } else {
                Some(if !shift && final(selection)@.len() > 1 { Some(index) } else { None })
            },
        },
{
    let index = match hit {
        None => {
            if !shift {
                selection.clear();
            }
            return None;
        },
        Some(index) => index,
    };
    let mut position: Option<usize> = None;
    let mut k: usize = 0;
    while k < selection.len()
        invariant
            k <= selection@.len(),
            selection@ == old(selection)@,
            position is None ==> !selection@.take(k as int).contains(index),
            position is Some ==> {
                let p = position->0 as int;
                &&& 0 <= p < k
                &&& selection@[p] == index
                &&& !selection@.take(p).contains(index)
            },
        decreases selection@.len() - k,
    {
        proof {
            assert(selection@.take(k + 1) =~= selection@.take(k as int).push(selection@[k as int]));
        }
        if position.is_none() && selection[k] == index {
            position = Some(k);
        }
        k = k + 1;
    }
    proof {
        assert(selection@.take(selection@.len() as int) =~= selection@);
    }
    match position {
        Some(p) => {
            if shift {
                proof {
                    let chosen = choose|q: int| 0 <= q < selection@.len() && selection@[q] == index && !selection@.take(q).contains(index);
                    if chosen < p {
                        assert(selection@.take(p as int)[chosen] == index);
                    } else if chosen > p {
                        assert(selection@.take(chosen)[p as int] == index);
                    }
                }
                selection.remove(p);
                return None;
            }
        },
        None => {
            if shift {
                selection.push(index);
            } else {
                selection.clear();
                selection.push(index);
                assert(selection@ =~= seq![index]);
            }
        },
    }
    let isolate = if !shift && selection.len() > 1 { Some(index) } else { None };
    Some(isolate)
}

/// A click on a face with the vertices `face`. With `shift`, a face that is all selected
/// is taken away from the selection; otherwise its vertices are added (after clearing the
/// selection without `shift`) and a grab starts. Returns whether it does.
pub fn select_face(selection: &mut Vec<usize>, face: &[usize], shift: bool) -> (grab: bool)
    ensures
        ({
            let all_in = forall|j: int| 0 <= j < face@.len() ==> old(selection)@.contains(#[trigger] face@[j]);
            if shift && all_in {
                !grab && final(selection)@ == old(selection)@.filter(|v: usize| !face@.contains(v))
            } else {
                grab && final(selection)@ == extended(if shift { old(selection)@ } else { Seq::<usize>::empty() }, face@)
            }
        }),
{
    let mut all_in = true;
    let mut j: usize = 0;
    while j < face.len()
        invariant
            j <= face@.len(),
            all_in == forall|q: int| 0 <= q < j ==> selection@.contains(#[trigger] face@[q]),
        decreases face@.len() - j,
    {
        if !listed(selection.as_slice(), face[j]) {
            all_in = false;
        }
        j = j + 1;
    }
    if shift && all_in {
        let ghost keep = |v: usize| !face@.contains(v);
        let mut flags: Vec<bool> = Vec::new();
        let mut i: usize = 0;
        while i < selection.len()
            invariant
                i <= selection@.len(),
                keep == |v: usize| !face@.contains(v),
                flags@.len() == i,
                forall|q: int| 0 <= q < i ==> #[trigger] flags@[q] == keep(selection@[q]),
            decreases selection@.len() - i,
        {
            flags.push(!listed(face, selection[i]));
            i = i + 1;
        }
        let kept = retain_where(selection, Ghost(keep), &flags);
        *selection = kept;
        return false;
    }
    if !shift {
        selection.clear();
        assert(selection@ =~= Seq::<usize>::empty());
    }
    extend_selection(selection, face);
    true
}

/// Makes the selection the vertices of layer `layer`; with `shift`, adds them to the
/// selection, or, when some of them are selected, takes them all away.
pub fn select_layer(selection: &mut Vec<usize>, mesh: &Mesh, layer: u32, shift: bool)
    requires
        forall|i: int| 0 <= i < old(selection)@.len() ==> #[trigger] old(selection)@[i] < mesh.vertex_layers@.len(),
    ensures
        ({
            let on_layer = |v: usize| mesh.vertex_layers@[v as int] == layer;
            let deselect = shift && exists|i: int| 0 <= i < old(selection)@.len() && on_layer(#[trigger] old(selection)@[i]);
            let base = if shift { old(selection)@ } else { Seq::<usize>::empty() };
            let rest = base.filter(|v: usize| mesh.vertex_layers@[v as int] != layer);
            &&& deselect ==> final(selection)@ == rest
            &&& !deselect ==> final(selection)@ == rest + Seq::new(mesh.vertex_layers@.len(), |v: int| v as usize).filter(on_layer)
        }),
{
    let mut deselect = false;
    let mut i: usize = 0;
    while i < selection.len()
        invariant
            i <= selection@.len(),
            selection@ == old(selection)@,
            forall|q: int| 0 <= q < selection@.len() ==> #[trigger] selection@[q] < mesh.vertex_layers@.len(),
            deselect == (shift && exists|q: int| 0 <= q < i && mesh.vertex_layers@[selection@[q] as int] == layer),
        decreases selection@.len() - i,
    {
        if shift && mesh.vertex_layers[selection[i]] == layer {
            deselect = true;
        }
        i = i + 1;
    }
    if !shift {
        selection.clear();
        assert(selection@ =~= Seq::<usize>::empty());
    }
    let ghost keep = |v: usize| mesh.vertex_layers@[v as int] != layer;
    let mut flags: Vec<bool> = Vec::new();
    let mut i: usize = 0;
    while i < selection.len()
        invariant
            i <= selection@.len(),
            keep == |v: usize| mesh.vertex_layers@[v as int] != layer,
            selection@ == if shift { old(selection)@ } else { Seq::<usize>::empty() },
            forall|q: int| 0 <= q < old(selection)@.len() ==> #[trigger] old(selection)@[q] < mesh.vertex_layers@.len(),
            flags@.len() == i,
            forall|q: int| 0 <= q < i ==> #[trigger] flags@[q] == keep(selection@[q]),
        decreases selection@.len() - i,
    {
        flags.push(mesh.vertex_layers[selection[i]] != layer);
        i = i + 1;
    }
    let kept = retain_where(selection, Ghost(keep), &flags);
    *selection = kept;
    if !deselect {
        let count = mesh.vertex_layers.len();
        let on = mesh.layer_vertices(layer);
        let ghost prior = selection@;
        let mut k: usize = 0;
        while k < on.len()
            invariant
                k <= on@.len(),
                selection@ == prior + on@.take(k as int),
            decreases on@.len() - k,
        {
            selection.push(on[k]);
            assert(prior + on@.take(k + 1) =~= (prior + on@.take(k as int)).push(on@[k as int]));
            k = k + 1;
        }
        proof {
            assert(on@.take(on@.len() as int) =~= on@);
            let on_layer = |v: usize| mesh.vertex_layers@[v as int] == layer;
            let all = Seq::new(mesh.vertex_layers@.len(), |v: int| v as usize).filter(on_layer);
            lemma_layer_vertices(mesh.vertex_layers@, layer, on@);
        }
    }
}

/// The increasing list of the vertices on a layer is the filter of all vertices.
proof fn lemma_layer_vertices(vertex_layers: Seq<u32>, layer: u32, on: Seq<usize>)
    requires
        crate::faces::strictly_increasing(on),
        forall|v: usize| on.contains(v) <==> v < vertex_layers.len() && vertex_layers[v as int] == layer,
        vertex_layers.len() <= usize::MAX,
    ensures
        on == Seq::new(vertex_layers.len(), |v: int| v as usize).filter(|v: usize| vertex_layers[v as int] == layer),
{
    let all = Seq::new(vertex_layers.len(), |v: int| v as usize);
    let pred = |v: usize| vertex_layers[v as int] == layer;
    let f = all.filter(pred);
    broadcast use vstd::seq_lib::group_filter_ensures;
    assert(crate::faces::strictly_increasing(f)) by {
        lemma_filter_increasing(all, pred);
    }
    assert forall|x: usize| f.contains(x) <==> on.contains(x) by {
        if on.contains(x) {
            assert(all[x as int] == x);
        }
        if f.contains(x) {
            let i = choose|i: int| 0 <= i < f.len() && f[i] == x;
            assert(pred(f[i]));
            assert(all.contains(x)) by {
                lemma_filter_subset(all, pred, x);
            }
        }
    }
    crate::faces::lemma_increasing_unique(on, f);
}

proof fn lemma_filter_subset(s: Seq<usize>, pred: spec_fn(usize) -> bool, x: usize)
    requires
        s.filter(pred).contains(x),
    ensures
        s.contains(x),
    decreases s.len(),
{
    reveal(Seq::filter);
    if s.len() > 0 {
        let prior = s.drop_last();
        if pred(s.last()) && x == s.last() {
        } else {
            if s.filter(pred) == prior.filter(pred) {
                lemma_filter_subset(prior, pred, x);
            } else {
                assert(s.filter(pred) == prior.filter(pred).push(s.last()));
                if x != s.last() {
                    let i = choose|i: int| 0 <= i < s.filter(pred).len() && s.filter(pred)[i] == x;
                    assert(prior.filter(pred)[i] == x);
                    lemma_filter_subset(prior, pred, x);
                }
            }
            let i = choose|i: int| 0 <= i < prior.len() && prior[i] == x;
            assert(s[i] == x);
        }
    }
}

proof fn lemma_filter_increasing(s: Seq<usize>, pred: spec_fn(usize) -> bool)
    requires
        crate::faces::strictly_increasing(s),
    ensures
        crate::faces::strictly_increasing(s.filter(pred)),
    decreases s.len(),
{
    reveal(Seq::filter);
    if s.len() > 0 {
        let prior = s.drop_last();
        lemma_filter_increasing(prior, pred);
        if pred(s.last()) {
            let f = s.filter(pred);
            let fp = prior.filter(pred);
            assert(f == fp.push(s.last()));
            assert forall|i: int, j: int| 0 <= i < j < f.len() implies f[i] < f[j] by {
                if j == f.len() - 1 {
                    assert(fp.contains(f[i]));
                    lemma_filter_subset(prior, pred, f[i]);
                    let k = choose|k: int| 0 <= k < prior.len() && prior[k] == f[i];
                    assert(s[k] < s[s.len() - 1]);
                }
            }
        }
    }
}

} // verus!

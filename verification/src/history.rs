use crate::element::Element;
use crate::mesh::{
    change_between, change_fits, change_holds, changed, meshes_agree, meshes_match, ChangeView, Change, Mesh, MeshView,
};
use std::collections::VecDeque;
use vstd::prelude::*;

verus! {

/// The views of a sequence of values.
pub open spec fn views<T: View>(s: Seq<T>) -> Seq<T::V> {
    s.map_values(|x: T| x@)
}

/// Whether `a` and `b` have the same length and agree item by item.
pub open spec fn agree_all<T: Element>(a: Seq<T::V>, b: Seq<T::V>) -> bool {
    &&& a.len() == b.len()
    &&& forall|j: int| 0 <= j < a.len() ==> T::agree(#[trigger] a[j], b[j])
}

/// Whether `a` and `b` have the same length and each item of `a` equals or agrees with
/// the one of `b` at its place.
pub open spec fn match_all<T: Element>(a: Seq<T::V>, b: Seq<T::V>) -> bool {
    &&& a.len() == b.len()
    &&& forall|j: int| 0 <= j < a.len() ==> #[trigger] a[j] == b[j] || T::agree(a[j], b[j])
}

/// The number of agreeing items at the front of `a` and `b`, counted from index `i` on.
pub open spec fn shared_prefix_from<T: Element>(a: Seq<T::V>, b: Seq<T::V>, i: nat) -> nat
    decreases a.len() - i,
{
    if i < a.len() && i < b.len() && T::agree(a[i as int], b[i as int]) {
        shared_prefix_from::<T>(a, b, i + 1)
    } else {
        i
    }
}

/// The length of the longest agreeing prefix of `a` and `b`.
pub open spec fn shared_prefix<T: Element>(a: Seq<T::V>, b: Seq<T::V>) -> nat {
    shared_prefix_from::<T>(a, b, 0)
}

/// The item `j` places before the end of `s` (`0` is the last one).
pub open spec fn from_back<V>(s: Seq<V>, j: int) -> V {
    s[s.len() - 1 - j]
}

/// The number of agreeing items at the back of `a` and `b`, counted from the `k`-th
/// last on.
pub open spec fn shared_suffix_from<T: Element>(a: Seq<T::V>, b: Seq<T::V>, k: nat) -> nat
    decreases a.len() - k,
{
    if k < a.len() && k < b.len() && T::agree(from_back(a, k as int), from_back(b, k as int)) {
        shared_suffix_from::<T>(a, b, k + 1)
    } else {
        k
    }
}

/// The length of the longest agreeing suffix of `a` and `b`.
pub open spec fn shared_suffix<T: Element>(a: Seq<T::V>, b: Seq<T::V>) -> nat {
    shared_suffix_from::<T>(a, b, 0)
}

/// What a splice records: where the edit starts, what was there before and what is there after.
pub struct Edit<V> {
    pub start: nat,
    pub before: Seq<V>,
    pub after: Seq<V>,
}

/// The smallest edit that turns `a` into `b`: the longest agreeing prefix is kept, and
/// of the rest the longest agreeing suffix is kept.
pub open spec fn edit_between<T: Element>(a: Seq<T::V>, b: Seq<T::V>) -> Edit<T::V> {
    let p = shared_prefix::<T>(a, b);
    let e = shared_suffix::<T>(a.skip(p as int), b.skip(p as int));
    Edit { start: p, before: a.subrange(p as int, a.len() - e), after: b.subrange(p as int, b.len() - e) }
}

/// Whether `edit` can be applied to `list` in the given direction.
pub open spec fn fits<V>(list: Seq<V>, edit: Edit<V>, forward: bool) -> bool {
    let from = if forward { edit.before } else { edit.after };
    edit.start + from.len() <= list.len()
}

/// The result of applying `edit` to `list`: forward replaces the recorded `before` part
/// with the `after` part, backward replaces `after` with `before`.
pub open spec fn patched<V>(list: Seq<V>, edit: Edit<V>, forward: bool) -> Seq<V> {
    let (from, to) = if forward { (edit.before, edit.after) } else { (edit.after, edit.before) };
    list.take(edit.start as int) + to + list.skip(edit.start + from.len() as int)
}

proof fn lemma_shared_prefix_from<T: Element>(a: Seq<T::V>, b: Seq<T::V>, i: nat)
    requires
        i <= a.len(),
        i <= b.len(),
    ensures
        i <= shared_prefix_from::<T>(a, b, i) <= a.len(),
        shared_prefix_from::<T>(a, b, i) <= b.len(),
        forall|j: int| i <= j < shared_prefix_from::<T>(a, b, i) ==> T::agree(#[trigger] a[j], b[j]),
        shared_prefix_from::<T>(a, b, i) == a.len() || shared_prefix_from::<T>(a, b, i) == b.len()
            || !T::agree(a[shared_prefix_from::<T>(a, b, i) as int], b[shared_prefix_from::<T>(a, b, i) as int]),
    decreases a.len() - i,
{
    if i < a.len() && i < b.len() && T::agree(a[i as int], b[i as int]) {
        lemma_shared_prefix_from::<T>(a, b, i + 1);
    }
}

proof fn lemma_shared_suffix_from<T: Element>(a: Seq<T::V>, b: Seq<T::V>, k: nat)
    requires
        k <= a.len(),
        k <= b.len(),
    ensures
        k <= shared_suffix_from::<T>(a, b, k) <= a.len(),
        shared_suffix_from::<T>(a, b, k) <= b.len(),
        forall|j: int| k <= j < shared_suffix_from::<T>(a, b, k) ==> T::agree(#[trigger] from_back(a, j), from_back(b, j)),
        shared_suffix_from::<T>(a, b, k) == a.len() || shared_suffix_from::<T>(a, b, k) == b.len()
            || !T::agree(from_back(a, shared_suffix_from::<T>(a, b, k) as int), from_back(b, shared_suffix_from::<T>(a, b, k) as int)),
    decreases a.len() - k,
{
    if k < a.len() && k < b.len() && T::agree(from_back(a, k as int), from_back(b, k as int)) {
        lemma_shared_suffix_from::<T>(a, b, k + 1);
    }
}

/// The facts about `edit_between` that its uses rest on.
proof fn lemma_edit_between<T: Element>(a: Seq<T::V>, b: Seq<T::V>)
    ensures
        ({
            let edit = edit_between::<T>(a, b);
            let p = edit.start;
            let e = a.len() - p - edit.before.len();
            &&& p <= a.len() && p <= b.len()
            &&& 0 <= e
            &&& e == b.len() - p - edit.after.len()
            &&& agree_all::<T>(a.take(p as int), b.take(p as int))
            &&& agree_all::<T>(a.skip(a.len() - e), b.skip(b.len() - e))
            &&& a == a.take(p as int) + edit.before + a.skip(a.len() - e)
            &&& b == b.take(p as int) + edit.after + b.skip(b.len() - e)
        }),
{
    let p = shared_prefix::<T>(a, b);
    lemma_shared_prefix_from::<T>(a, b, 0);
    let (ra, rb) = (a.skip(p as int), b.skip(p as int));
    let e = shared_suffix::<T>(ra, rb);
    lemma_shared_suffix_from::<T>(ra, rb, 0);
    assert forall|j: int| 0 <= j < p implies T::agree(#[trigger] a.take(p as int)[j], b.take(p as int)[j]) by {
        assert(T::agree(a[j], b[j]));
    }
    assert forall|j: int| 0 <= j < e implies T::agree(#[trigger] a.skip(a.len() - e)[j], b.skip(b.len() - e)[j]) by {
        assert(T::agree(from_back(ra, e - 1 - j), from_back(rb, e - 1 - j)));
    }
    assert(a =~= a.take(p as int) + a.subrange(p as int, a.len() - e) + a.skip(a.len() - e));
    assert(b =~= b.take(p as int) + b.subrange(p as int, b.len() - e) + b.skip(b.len() - e));
}

/// Applying the edit between `a` and `b` forward to `a` keeps `a`'s agreeing ends and
/// takes `b`'s middle, so that the result matches `b`; applying it backward to `b`
/// gives a list that `a` matches.
pub proof fn lemma_edit_round_trip<T: Element>(a: Seq<T::V>, b: Seq<T::V>)
    ensures
        fits(a, edit_between::<T>(a, b), true),
        fits(b, edit_between::<T>(a, b), false),
        match_all::<T>(patched(a, edit_between::<T>(a, b), true), b),
        match_all::<T>(a, patched(b, edit_between::<T>(a, b), false)),
{
    lemma_edit_between::<T>(a, b);
    let edit = edit_between::<T>(a, b);
    let p = edit.start as int;
    let e = a.len() - p - edit.before.len();
    let fwd = patched(a, edit, true);
    let bwd = patched(b, edit, false);
    assert forall|j: int| 0 <= j < b.len() implies #[trigger] fwd[j] == b[j] || T::agree(fwd[j], b[j]) by {
        if j < p {
            assert(fwd[j] == a.take(p)[j]);
            assert(b[j] == b.take(p)[j]);
        } else if j < p + edit.after.len() {
            assert(fwd[j] == b[j]);
        } else {
            assert(fwd[j] == a.skip(a.len() - e)[j - p - edit.after.len()]);
            assert(b[j] == b.skip(b.len() - e)[j - p - edit.after.len()]);
        }
    }
    assert forall|j: int| 0 <= j < a.len() implies #[trigger] a[j] == bwd[j] || T::agree(a[j], bwd[j]) by {
        if j < p {
            assert(bwd[j] == b.take(p)[j]);
            assert(a[j] == a.take(p)[j]);
            assert(T::agree(a.take(p)[j], b.take(p)[j]));
        } else if j < p + edit.before.len() {
            assert(bwd[j] == a[j]);
        } else {
            assert(bwd[j] == b.skip(b.len() - e)[j - p - edit.before.len()]);
            assert(a[j] == a.skip(a.len() - e)[j - p - edit.before.len()]);
            assert(T::agree(a.skip(a.len() - e)[j - p - edit.before.len()], b.skip(b.len() - e)[j - p - edit.before.len()]));
        }
    }
}

/// The edit between two sequences is empty exactly when they agree item by item.
pub proof fn lemma_edit_empty<T: Element>(a: Seq<T::V>, b: Seq<T::V>)
    ensures
        (edit_between::<T>(a, b).before.len() == 0 && edit_between::<T>(a, b).after.len() == 0)
            <==> agree_all::<T>(a, b),
{
    lemma_edit_between::<T>(a, b);
    lemma_shared_prefix_from::<T>(a, b, 0);
    let edit = edit_between::<T>(a, b);
    if agree_all::<T>(a, b) {
        assert(shared_prefix::<T>(a, b) == a.len());
    }
    if edit.before.len() == 0 && edit.after.len() == 0 {
        let p = edit.start as int;
        let e = a.len() - p;
        assert forall|j: int| 0 <= j < a.len() implies T::agree(#[trigger] a[j], b[j]) by {
            if j < p {
                assert(a[j] == a.take(p)[j]);
                assert(b[j] == b.take(p)[j]);
            } else {
                assert(a[j] == a.skip(a.len() - e)[j - p]);
                assert(b[j] == b.skip(b.len() - e)[j - p]);
            }
        }
    }
}

/// A replacement of one run of items by another, enough to turn one list into another
/// and back.
pub struct Splice<T> {
    start: usize,
    before: Vec<T>,
    after: Vec<T>,
}

impl<T: View> View for Splice<T> {
    type V = Edit<T::V>;

    closed spec fn view(&self) -> Edit<T::V> {
        Edit { start: self.start as nat, before: views(self.before@), after: views(self.after@) }
    }
}

fn copy_range<T: Element>(items: &[T], from: usize, to: usize) -> (copy: Vec<T>)
    requires
        from <= to <= items@.len(),
    ensures
        views(copy@) == views(items@).subrange(from as int, to as int),
{
    let mut copy: Vec<T> = Vec::new();
    let mut i = from;
    while i < to
        invariant
            from <= i <= to <= items@.len(),
            views(copy@) == views(items@).subrange(from as int, i as int),
        decreases to - i,
    {
        let item = items[i].duplicate();
        let ghost prior = copy@;
        copy.push(item);
        assert(views(copy@) =~= views(prior).push(item@));
        i = i + 1;
        assert(views(copy@) =~= views(items@).subrange(from as int, i as int));
    }
    copy
}

impl<T: Element> Splice<T> {
    /// Whether the splice can be applied, in the given direction, to a list of `len`
    /// items: the part it replaces lies within the list.
    pub fn fits_len(&self, len: usize, forward: bool) -> (ok: bool)
        ensures
            ok == (self@.start + (if forward { self@.before.len() } else { self@.after.len() }) <= len),
    {
        let from = if forward { self.before.len() } else { self.after.len() };
        self.start <= len && from <= len - self.start
    }

    /// The smallest splice that turns `before` into `after`.
    pub fn new(before: &[T], after: &[T]) -> (splice: Self)
        ensures
            splice@ == edit_between::<T>(views(before@), views(after@)),
    {
        let ghost (a, b) = (views(before@), views(after@));
        let mut start: usize = 0;
        while start < before.len() && start < after.len() && before[start].same(&after[start])
            invariant
                start <= before@.len(),
                start <= after@.len(),
                a == views(before@),
                b == views(after@),
                shared_prefix::<T>(a, b) == shared_prefix_from::<T>(a, b, start as nat),
            decreases before@.len() - start,
        {
            start = start + 1;
        }
        let mut end: usize = 0;
        let ghost (ra, rb) = (a.skip(start as int), b.skip(start as int));
        while end < before.len() - start && end < after.len() - start
            && before[before.len() - 1 - end].same(&after[after.len() - 1 - end])
            invariant
                start <= before@.len(),
                start <= after@.len(),
                end <= before@.len() - start,
                end <= after@.len() - start,
                a == views(before@),
                b == views(after@),
                ra == a.skip(start as int),
                rb == b.skip(start as int),
                shared_suffix::<T>(ra, rb) == shared_suffix_from::<T>(ra, rb, end as nat),
            decreases before@.len() - end,
        {
            assert(from_back(ra, end as int) == from_back(a, end as int));
            assert(from_back(rb, end as int) == from_back(b, end as int));
            end = end + 1;
        }
        proof {
            if end < before.len() - start && end < after.len() - start {
                assert(from_back(ra, end as int) == from_back(a, end as int));
                assert(from_back(rb, end as int) == from_back(b, end as int));
            }
        }
        let removed = copy_range(before, start, before.len() - end);
        let inserted = copy_range(after, start, after.len() - end);
        Splice { start, before: removed, after: inserted }
    }

    /// Whether the splice changes nothing.
    pub fn is_empty(&self) -> (empty: bool)
        ensures
            empty == (self@.before.len() == 0 && self@.after.len() == 0),
    {
        self.before.len() == 0 && self.after.len() == 0
    }

    /// Replaces, in `list`, the recorded run by the other one: `before` by `after` when
    /// going forward, `after` by `before` when going backward.
    pub fn apply(&self, list: &mut Vec<T>, forward: bool)
        requires
            fits(views(old(list)@), self@, forward),
        ensures
            views(final(list)@) == patched(views(old(list)@), self@, forward),
    {
        let (from, to) = if forward { (&self.before, &self.after) } else { (&self.after, &self.before) };
        let ghost old_list = list@;
        assert(views(from@).len() == from@.len());
        assert(views(from@) == if forward { self@.before } else { self@.after });
        assert(self@.start == self.start as nat);
        let _length = list.len();
        assert(views(old_list).len() == old_list.len());
        let mut tail = list.split_off(self.start + from.len());
        list.truncate(self.start);
        let mut i: usize = 0;
        while i < to.len()
            invariant
                self.start <= old_list.len(),
                views(list@) == views(old_list).take(self.start as int) + views(to@).take(i as int),
                i <= to@.len(),
            decreases to@.len() - i,
        {
            let item = to[i].duplicate();
            let ghost prior = list@;
            list.push(item);
            assert(views(list@) =~= views(prior).push(item@));
            i = i + 1;
            assert(views(list@) =~= views(old_list).take(self.start as int) + views(to@).take(i as int));
        }
        list.append(&mut tail);
        assert(views(to@).take(to@.len() as int) =~= views(to@));
        assert(views(list@) =~= patched(views(old_list), self@, forward));
    }
}

} // verus!

verus! {

/// Whether `list` holds, at the edit's start, the recorded `after` part (when `after`
/// is true) or the recorded `before` part.
pub open spec fn edit_holds<V>(list: Seq<V>, edit: Edit<V>, after: bool) -> bool {
    let part = if after { edit.after } else { edit.before };
    &&& edit.start + part.len() <= list.len()
    &&& list.subrange(edit.start as int, edit.start + part.len() as int) == part
}

/// Undoing an edit from a list that holds its `after` part gives a list that holds its
/// `before` part, and redoing it then gives the list back; and the same the other way.
pub proof fn lemma_edit_holds<V>(list: Seq<V>, edit: Edit<V>, after: bool)
    requires
        edit_holds(list, edit, after),
    ensures
        fits(list, edit, !after),
        edit_holds(patched(list, edit, !after), edit, !after),
        fits(patched(list, edit, !after), edit, after),
        patched(patched(list, edit, !after), edit, after) == list,
{
    let back = patched(list, edit, !after);
    let (from, to) = if after { (edit.after, edit.before) } else { (edit.before, edit.after) };
    assert(back.subrange(edit.start as int, edit.start + to.len() as int) =~= to);
    assert(patched(back, edit, after) =~= list);
}

/// The edit between two sequences holds its `before` part in the first and its `after`
/// part in the second.
pub proof fn lemma_edit_between_holds<T: Element>(a: Seq<T::V>, b: Seq<T::V>)
    ensures
        edit_holds(a, edit_between::<T>(a, b), false),
        edit_holds(b, edit_between::<T>(a, b), true),
{
    lemma_edit_between::<T>(a, b);
    let edit = edit_between::<T>(a, b);
    assert(a.subrange(edit.start as int, edit.start + edit.before.len() as int) =~= edit.before);
    assert(b.subrange(edit.start as int, edit.start + edit.after.len() as int) =~= edit.after);
}

} // verus!

verus! {

/// The most changes the history keeps for undoing.
pub const MAX_ENTRIES: usize = 100;

/// One recorded change, with the selections before and after it.
struct Entry {
    id: u64,
    change: Change,
    before: Vec<usize>,
    after: Vec<usize>,
}

/// What a recorded change holds.
pub struct EntryView {
    pub id: u64,
    pub change: ChangeView,
    pub before: Seq<usize>,
    pub after: Seq<usize>,
}

impl View for Entry {
    type V = EntryView;

    closed spec fn view(&self) -> EntryView {
        EntryView { id: self.id, change: self.change@, before: self.before@, after: self.after@ }
    }
}

/// The undo history of a mesh: the last committed state (the checkpoint), the changes
/// that lead to it, and the changes that were undone and can be redone.
pub struct History {
    checkpoint: Mesh,
    undo: VecDeque<Entry>,
    redo: Vec<Entry>,
    next_id: u64,
    base: u64,
}

/// What a history holds.
pub struct HistoryView {
    pub checkpoint: MeshView,
    pub undo: Seq<EntryView>,
    pub redo: Seq<EntryView>,
    pub next_id: u64,
    pub base: u64,
}

impl View for History {
    type V = HistoryView;

    closed spec fn view(&self) -> HistoryView {
        HistoryView {
            checkpoint: self.checkpoint@,
            undo: views(self.undo@),
            redo: views(self.redo@),
            next_id: self.next_id,
            base: self.base,
        }
    }
}

/// Undoing the changes of `entries`, from the last one back, starting from `mesh`:
/// each one finds its `after` parts in the mesh it is undone from.
pub open spec fn undo_chain(mesh: MeshView, entries: Seq<EntryView>) -> bool
    decreases entries.len(),
{
    entries.len() > 0 ==> {
        let last = entries.last();
        &&& change_holds(mesh, last.change, true)
        &&& undo_chain(changed(mesh, last.change, false), entries.drop_last())
    }
}

/// Redoing the changes of `entries`, from the last one back, starting from `mesh`:
/// each one finds its `before` parts in the mesh it is redone on.
pub open spec fn redo_chain(mesh: MeshView, entries: Seq<EntryView>) -> bool
    decreases entries.len(),
{
    entries.len() > 0 ==> {
        let last = entries.last();
        &&& change_holds(mesh, last.change, false)
        &&& redo_chain(changed(mesh, last.change, true), entries.drop_last())
    }
}

/// The revision that a history stands at: the id of its last undoable change, or the
/// base it started from.
pub open spec fn spec_revision(history: HistoryView) -> u64 {
    if history.undo.len() == 0 {
        history.base
    } else {
        history.undo.last().id
    }
}

/// Whether the last undoable change can be undone from `mesh`.
pub open spec fn can_undo(history: HistoryView, mesh: MeshView) -> bool {
    history.undo.len() > 0 ==> change_fits(mesh, history.undo.last().change, false)
}

/// Whether the last undone change can be redone on `mesh`.
pub open spec fn can_redo(history: HistoryView, mesh: MeshView) -> bool {
    history.redo.len() > 0 ==> change_fits(mesh, history.redo.last().change, true)
}

impl HistoryView {
    /// The history's changes undo and redo consistently from its checkpoint, it keeps
    /// at most `MAX_ENTRIES` of them, and the revisions grow with each commit.
    pub open spec fn well_formed(self) -> bool {
        &&& undo_chain(self.checkpoint, self.undo)
        &&& redo_chain(self.checkpoint, self.redo)
        &&& self.undo.len() + self.redo.len() <= MAX_ENTRIES
        &&& self.base <= self.next_id
        &&& forall|i: int| 0 <= i < self.undo.len() ==> self.base < #[trigger] self.undo[i].id <= self.next_id
        &&& forall|i: int| 0 <= i < self.redo.len() ==> self.base < #[trigger] self.redo[i].id <= self.next_id
        &&& forall|i: int, j: int| 0 <= i < j < self.undo.len() ==> self.undo[i].id < self.undo[j].id
        &&& forall|i: int, j: int| 0 <= i < j < self.redo.len() ==> self.redo[i].id > self.redo[j].id
        &&& forall|i: int, j: int| 0 <= i < self.undo.len() && 0 <= j < self.redo.len() ==> self.undo[i].id < self.redo[j].id
    }
}

proof fn lemma_undo_chain_drop_first(mesh: MeshView, entries: Seq<EntryView>)
    requires
        undo_chain(mesh, entries),
        entries.len() > 0,
    ensures
        undo_chain(mesh, entries.drop_first()),
    decreases entries.len(),
{
    if entries.len() > 1 {
        let last = entries.last();
        assert(entries.drop_first().last() == last);
        lemma_undo_chain_drop_first(changed(mesh, last.change, false), entries.drop_last());
        assert(entries.drop_last().drop_first() =~= entries.drop_first().drop_last());
    } else {
        assert(entries.drop_first().len() == 0);
    }
}

/// A well-formed history can undo and redo from its own checkpoint.
pub proof fn lemma_checkpoint_can_undo_redo(history: HistoryView)
    requires
        history.well_formed(),
    ensures
        can_undo(history, history.checkpoint),
        can_redo(history, history.checkpoint),
{
    if history.undo.len() > 0 {
        crate::mesh::lemma_change_holds(history.checkpoint, history.undo.last().change, true);
    }
    if history.redo.len() > 0 {
        crate::mesh::lemma_change_holds(history.checkpoint, history.redo.last().change, false);
    }
}

/// Undoing the last change from the checkpoint and redoing it gives the checkpoint back.
pub proof fn lemma_undo_then_redo(history: HistoryView)
    requires
        history.well_formed(),
        history.undo.len() > 0,
    ensures
        ({
            let change = history.undo.last().change;
            changed(changed(history.checkpoint, change, false), change, true) == history.checkpoint
        }),
{
    crate::mesh::lemma_change_holds(history.checkpoint, history.undo.last().change, true);
}

/// Redoing the last undone change on the checkpoint and undoing it gives the checkpoint back.
pub proof fn lemma_redo_then_undo(history: HistoryView)
    requires
        history.well_formed(),
        history.redo.len() > 0,
    ensures
        ({
            let change = history.redo.last().change;
            changed(changed(history.checkpoint, change, true), change, false) == history.checkpoint
        }),
{
    crate::mesh::lemma_change_holds(history.checkpoint, history.redo.last().change, false);
}

/// Undoing the change that a commit recorded, from the committed mesh, gives a mesh that
/// the checkpoint it was committed on matches.
pub proof fn lemma_commit_then_undo(checkpoint: MeshView, mesh: MeshView)
    ensures
        change_fits(mesh, change_between(checkpoint, mesh), false),
        meshes_match(checkpoint, changed(mesh, change_between(checkpoint, mesh), false)),
{
    crate::mesh::lemma_change_round_trip(checkpoint, mesh);
}

/// The history once `mesh` is committed with the selections `before` and `after` (see
/// `History::commit`).
pub open spec fn committed(history: HistoryView, mesh: MeshView, before: Seq<usize>, after: Seq<usize>) -> HistoryView {
    if meshes_agree(history.checkpoint, mesh) {
        history
    } else {
        let dropped = history.undo.len() == MAX_ENTRIES;
        let kept = if dropped { history.undo.drop_first() } else { history.undo };
        let change = change_between(history.checkpoint, mesh);
        let entry = EntryView { id: (history.next_id + 1) as u64, change, before, after };
        HistoryView {
            checkpoint: changed(history.checkpoint, change, true),
            undo: kept.push(entry),
            redo: Seq::empty(),
            next_id: (history.next_id + 1) as u64,
            base: if dropped { history.undo[0].id } else { history.base },
        }
    }
}

/// The history once its last change is undone (see `History::undo`).
pub open spec fn undone(history: HistoryView) -> HistoryView {
    if history.undo.len() == 0 {
        history
    } else {
        let entry = history.undo.last();
        HistoryView {
            checkpoint: changed(history.checkpoint, entry.change, false),
            undo: history.undo.drop_last(),
            redo: history.redo.push(entry),
            ..history
        }
    }
}

/// The history once its last undone change is redone (see `History::redo`).
pub open spec fn redone(history: HistoryView) -> HistoryView {
    if history.redo.len() == 0 {
        history
    } else {
        let entry = history.redo.last();
        HistoryView {
            checkpoint: changed(history.checkpoint, entry.change, true),
            undo: history.undo.push(entry),
            redo: history.redo.drop_last(),
            ..history
        }
    }
}

/// A commit of a changed mesh makes the checkpoint match it, at a revision above
/// every revision the history stood at before, forgets what could be redone, and keeps
/// at most `MAX_ENTRIES` changes, forgetting the oldest.
pub proof fn lemma_commit_fresh(history: HistoryView, mesh: MeshView, before: Seq<usize>, after: Seq<usize>)
    requires
        history.well_formed(),
        history.next_id < u64::MAX,
        !meshes_agree(history.checkpoint, mesh),
    ensures
        ({
            let next = committed(history, mesh, before, after);
            &&& meshes_match(next.checkpoint, mesh)
            &&& spec_revision(history) <= history.next_id
            &&& spec_revision(next) == history.next_id + 1
            &&& next.next_id == spec_revision(next)
            &&& spec_revision(next) > history.base
            &&& forall|i: int| 0 <= i < history.undo.len() ==> spec_revision(next) > #[trigger] history.undo[i].id
            &&& forall|i: int| 0 <= i < history.redo.len() ==> spec_revision(next) > #[trigger] history.redo[i].id
            &&& next.redo.len() == 0
            &&& redone(next) == next
            &&& next.undo.len() == if history.undo.len() == MAX_ENTRIES { MAX_ENTRIES as int } else { history.undo.len() + 1int }
        }),
{
    crate::mesh::lemma_change_round_trip(history.checkpoint, mesh);
}

/// A well-formed history keeps at most `MAX_ENTRIES` changes, stands at a revision no
/// greater than the last id it gave out, and undoing or redoing changes neither that id
/// nor anything at all when there is nothing to undo or redo.
pub proof fn lemma_history_bounds(history: HistoryView)
    requires
        history.well_formed(),
    ensures
        history.undo.len() <= MAX_ENTRIES,
        spec_revision(history) <= history.next_id,
        undone(history).next_id == history.next_id,
        redone(history).next_id == history.next_id,
        history.undo.len() == 0 ==> undone(history) == history,
        history.redo.len() == 0 ==> redone(history) == history,
{
}

/// Undoing right after a commit gives back a mesh that the checkpoint from before the
/// commit matches, and exactly the selection, the checkpoint and the revision from before
/// it; redoing then gives back the committed mesh, the selection after it, the
/// checkpoint of the commit and its revision.
pub proof fn lemma_commit_undo_redo(history: HistoryView, mesh: MeshView, before: Seq<usize>, after: Seq<usize>)
    requires
        history.well_formed(),
        history.next_id < u64::MAX,
        !meshes_agree(history.checkpoint, mesh),
    ensures
        ({
            let next = committed(history, mesh, before, after);
            let back = undone(next);
            let again = redone(back);
            let change = next.undo.last().change;
            &&& meshes_match(history.checkpoint, changed(mesh, change, false))
            &&& next.undo.last().before == before
            &&& back.checkpoint == history.checkpoint
            &&& spec_revision(back) == spec_revision(history)
            &&& changed(changed(mesh, change, false), change, true) == mesh
            &&& back.redo.last().after == after
            &&& again.checkpoint == next.checkpoint
            &&& meshes_match(again.checkpoint, mesh)
            &&& spec_revision(again) == spec_revision(next)
        }),
{
    let next = committed(history, mesh, before, after);
    crate::mesh::lemma_change_round_trip(history.checkpoint, mesh);
    crate::mesh::lemma_change_between_holds(history.checkpoint, mesh);
    crate::mesh::lemma_change_holds(history.checkpoint, change_between(history.checkpoint, mesh), false);
    crate::mesh::lemma_change_holds(mesh, change_between(history.checkpoint, mesh), true);
    let back = undone(next);
    assert(back.undo =~= (if history.undo.len() == MAX_ENTRIES { history.undo.drop_first() } else { history.undo }));
    if history.undo.len() == MAX_ENTRIES {
        assert(history.undo.drop_first().last() == history.undo.last());
    }
    assert(next.undo.last().change == change_between(history.checkpoint, mesh));
    assert(back.checkpoint == history.checkpoint);
    assert(spec_revision(back) == spec_revision(history));
    let again = redone(back);
    assert(again.undo =~= next.undo);
    assert(again.checkpoint == next.checkpoint);
    assert(back.redo.last().after == after);
}

/// One operation on a history: a commit of a mesh with the selections before and after
/// it, an undo or a redo.
pub enum HistoryStep {
    Commit(MeshView, Seq<usize>, Seq<usize>),
    Undo,
    Redo,
}

/// The history after one step (see `committed`, `undone` and `redone`).
pub open spec fn stepped(history: HistoryView, step: HistoryStep) -> HistoryView {
    match step {
        HistoryStep::Commit(mesh, before, after) => committed(history, mesh, before, after),
        HistoryStep::Undo => undone(history),
        HistoryStep::Redo => redone(history),
    }
}

/// The history after the steps, taken in order.
pub open spec fn run(history: HistoryView, steps: Seq<HistoryStep>) -> HistoryView
    decreases steps.len(),
{
    if steps.len() == 0 {
        history
    } else {
        stepped(run(history, steps.drop_last()), steps.last())
    }
}

/// No id that a history holds, nor its base, is above the last id it gave out.
spec fn ids_bounded(history: HistoryView) -> bool {
    &&& history.base <= history.next_id
    &&& forall|i: int| 0 <= i < history.undo.len() ==> #[trigger] history.undo[i].id <= history.next_id
    &&& forall|i: int| 0 <= i < history.redo.len() ==> #[trigger] history.redo[i].id <= history.next_id
}

proof fn lemma_step_bounded(history: HistoryView, step: HistoryStep)
    requires
        ids_bounded(history),
        history.next_id < u64::MAX,
    ensures
        ids_bounded(stepped(history, step)),
        history.next_id <= stepped(history, step).next_id <= history.next_id + 1,
{
    let next = stepped(history, step);
    match step {
        HistoryStep::Commit(mesh, before, after) => {
            if !meshes_agree(history.checkpoint, mesh) && history.undo.len() == MAX_ENTRIES {
                assert forall|i: int| 0 <= i < next.undo.len() implies #[trigger] next.undo[i].id <= next.next_id by {
                    if i < next.undo.len() - 1 {
                        assert(next.undo[i] == history.undo[i + 1]);
                    }
                }
            }
        },
        HistoryStep::Undo => {
            if history.undo.len() > 0 {
                assert forall|i: int| 0 <= i < next.redo.len() implies #[trigger] next.redo[i].id <= next.next_id by {
                    if i < history.redo.len() {
                        assert(next.redo[i] == history.redo[i]);
                    }
                }
            }
        },
        HistoryStep::Redo => {
            if history.redo.len() > 0 {
                assert forall|i: int| 0 <= i < next.undo.len() implies #[trigger] next.undo[i].id <= next.next_id by {
                    if i < history.undo.len() {
                        assert(next.undo[i] == history.undo[i]);
                    }
                }
            }
        },
    }
}

proof fn lemma_run_bounded(history: HistoryView, steps: Seq<HistoryStep>)
    requires
        ids_bounded(history),
        history.next_id + steps.len() < u64::MAX,
    ensures
        ids_bounded(run(history, steps)),
        history.next_id <= run(history, steps).next_id <= history.next_id + steps.len(),
    decreases steps.len(),
{
    if steps.len() > 0 {
        lemma_run_bounded(history, steps.drop_last());
        lemma_step_bounded(run(history, steps.drop_last()), steps.last());
    }
}

proof fn lemma_run_prefix(history: HistoryView, steps: Seq<HistoryStep>, k: int)
    requires
        ids_bounded(history),
        history.next_id + steps.len() < u64::MAX,
        0 <= k <= steps.len(),
    ensures
        ids_bounded(run(history, steps.take(k))),
        run(history, steps.take(k)).next_id <= run(history, steps).next_id,
    decreases steps.len(),
{
    if k == steps.len() {
        assert(steps.take(k) =~= steps);
        lemma_run_bounded(history, steps);
    } else {
        assert(steps.drop_last().take(k) =~= steps.take(k));
        lemma_run_prefix(history, steps.drop_last(), k);
        lemma_run_bounded(history, steps.drop_last());
        lemma_step_bounded(run(history, steps.drop_last()), steps.last());
    }
}

/// Whatever commits, undos and redos came before, a commit of a mesh that does not
/// agree with the checkpoint stands at a revision above every revision the history
/// stood at on the way.
pub proof fn lemma_commit_revision_is_new(
    history: HistoryView,
    steps: Seq<HistoryStep>,
    mesh: MeshView,
    before: Seq<usize>,
    after: Seq<usize>,
)
    requires
        history.well_formed(),
        history.next_id + steps.len() < u64::MAX,
        !meshes_agree(run(history, steps).checkpoint, mesh),
    ensures
        forall|k: int|
            0 <= k <= steps.len() ==> spec_revision(#[trigger] run(history, steps.take(k))) < spec_revision(
                committed(run(history, steps), mesh, before, after),
            ),
{
    lemma_run_bounded(history, steps);
    let last = run(history, steps);
    assert forall|k: int| 0 <= k <= steps.len() implies spec_revision(#[trigger] run(history, steps.take(k)))
        < spec_revision(committed(last, mesh, before, after)) by {
        lemma_run_prefix(history, steps, k);
        let earlier = run(history, steps.take(k));
        if earlier.undo.len() > 0 {
            assert(earlier.undo.last().id <= earlier.next_id);
        }
    }
}

fn copy_entry_selection(selection: &Vec<usize>) -> (copy: Vec<usize>)
    ensures
        copy@ == selection@,
{
    crate::element::copy_indices(selection.as_slice())
}

impl History {
    /// A history whose checkpoint is a copy of `mesh`, with nothing to undo or redo.
    pub fn new(mesh: &Mesh) -> (history: Self)
        ensures
            history@.checkpoint == mesh@,
            history@.undo.len() == 0,
            history@.redo.len() == 0,
            history@.next_id == 0,
            history@.base == 0,
            history@.well_formed(),
    {
        let history = History {
            checkpoint: mesh.duplicate(),
            undo: VecDeque::new(),
            redo: Vec::new(),
            next_id: 0,
            base: 0,
        };
        assert(views(history.undo@) =~= Seq::<EntryView>::empty());
        assert(views(history.redo@) =~= Seq::<EntryView>::empty());
        history
    }

    /// The last committed state of the mesh.
    pub fn checkpoint(&self) -> (mesh: &Mesh)
        ensures
            mesh@ == self@.checkpoint,
    {
        &self.checkpoint
    }

    /// Whether the last change can be undone from `mesh` (see `can_undo`).
    pub fn can_undo(&self, mesh: &Mesh) -> (ok: bool)
        ensures
            ok == can_undo(self@, mesh@),
    {
        let length = self.undo.len();
        if length == 0 {
            return true;
        }
        assert(views(self.undo@)[length - 1] == self.undo@[length - 1]@);
        self.undo[length - 1].change.fits(mesh, false)
    }

    /// Whether the last undone change can be redone on `mesh` (see `can_redo`).
    pub fn can_redo(&self, mesh: &Mesh) -> (ok: bool)
        ensures
            ok == can_redo(self@, mesh@),
    {
        let length = self.redo.len();
        if length == 0 {
            return true;
        }
        assert(views(self.redo@)[length - 1] == self.redo@[length - 1]@);
        self.redo[length - 1].change.fits(mesh, true)
    }

    /// The revision the history stands at; it changes with each commit, undo and redo.
    pub fn revision(&self) -> (revision: u64)
        ensures
            revision == spec_revision(self@),
    {
        let length = self.undo.len();
        if length == 0 {
            self.base
        } else {
            assert(views(self.undo@)[length - 1] == self.undo@[length - 1]@);
            self.undo[length - 1].id
        }
    }

    /// Records the difference between the checkpoint and `mesh` as one undoable change,
    /// with the selections before and after it, and applies it to the checkpoint, which
    /// then matches `mesh`. Nothing happens when the mesh agrees with the checkpoint.
    /// The oldest change is forgotten when `MAX_ENTRIES` are kept; whatever could be
    /// redone is forgotten.
    pub fn commit(&mut self, mesh: &Mesh, before: Vec<usize>, after: &Vec<usize>)
        requires
            old(self)@.well_formed(),
            old(self)@.next_id < u64::MAX,
        ensures
            final(self)@.well_formed(),
            meshes_agree(old(self)@.checkpoint, mesh@) ==> final(self)@ == old(self)@,
            !meshes_agree(old(self)@.checkpoint, mesh@) ==> {
                let dropped = old(self)@.undo.len() == MAX_ENTRIES;
                let kept = if dropped { old(self)@.undo.drop_first() } else { old(self)@.undo };
                let entry = EntryView {
                    id: (old(self)@.next_id + 1) as u64,
                    change: change_between(old(self)@.checkpoint, mesh@),
                    before: before@,
                    after: after@,
                };
                &&& final(self)@.checkpoint == changed(old(self)@.checkpoint, entry.change, true)
                &&& meshes_match(final(self)@.checkpoint, mesh@)
                &&& final(self)@.undo == kept.push(entry)
                &&& final(self)@.redo.len() == 0
                &&& final(self)@.next_id == old(self)@.next_id + 1
                &&& final(self)@.base == if dropped { old(self)@.undo[0].id } else { old(self)@.base }
                &&& spec_revision(final(self)@) == old(self)@.next_id + 1
                &&& spec_revision(final(self)@) > spec_revision(old(self)@)
            },
            final(self)@ == committed(old(self)@, mesh@, before@, after@),
    {
        let ghost old_view = self@;
        let change = self.checkpoint.diff(mesh);
        proof {
            crate::mesh::lemma_change_empty(old_view.checkpoint, mesh@);
            crate::mesh::lemma_change_round_trip(old_view.checkpoint, mesh@);
            crate::mesh::lemma_change_between_holds(old_view.checkpoint, mesh@);
            crate::mesh::lemma_change_holds(old_view.checkpoint, change_between(old_view.checkpoint, mesh@), false);
        }
        if change.is_empty() {
            return;
        }
        self.checkpoint.apply(&change, true);
        if self.undo.len() == MAX_ENTRIES {
            let ghost prior = self.undo@;
            let dropped = self.undo.pop_front();
            match dropped {
                Some(entry) => {
                    proof {
                        assert(views(self.undo@) =~= views(prior).drop_first());
                        assert(views(prior)[0] == entry@);
                        lemma_undo_chain_drop_first(old_view.checkpoint, views(prior));
                    }
                    self.base = entry.id;
                },
                None => {},
            }
        }
        self.next_id = self.next_id + 1;
        let entry = Entry { id: self.next_id, change, before, after: copy_entry_selection(after) };
        let ghost prior = self.undo@;
        self.undo.push_back(entry);
        self.redo.clear();
        proof {
            assert(views(self.undo@) =~= views(prior).push(entry@));
            assert(views(self.undo@).drop_last() =~= views(prior));
            assert(views(self.redo@) =~= Seq::<EntryView>::empty());
        }
    }

    /// Makes `mesh` a copy of the checkpoint, dropping whatever was not committed.
    pub fn revert(&self, mesh: &mut Mesh)
        ensures
            final(mesh)@ == self@.checkpoint,
    {
        *mesh = self.checkpoint.duplicate();
    }

    /// Undoes the last change, on `mesh` and on the checkpoint, and restores the selection
    /// from before it; the change can then be redone. Nothing happens when there is
    /// nothing to undo.
    pub fn undo(&mut self, mesh: &mut Mesh, selection: &mut Vec<usize>)
        requires
            old(self)@.well_formed(),
            can_undo(old(self)@, old(mesh)@),
        ensures
            final(self)@.well_formed(),
            old(self)@.undo.len() == 0 ==> final(self)@ == old(self)@ && final(mesh)@ == old(mesh)@
                && final(selection)@ == old(selection)@,
            old(self)@.undo.len() > 0 ==> {
                let entry = old(self)@.undo.last();
                &&& final(mesh)@ == changed(old(mesh)@, entry.change, false)
                &&& final(self)@.checkpoint == changed(old(self)@.checkpoint, entry.change, false)
                &&& final(selection)@ == entry.before
                &&& final(self)@.undo == old(self)@.undo.drop_last()
                &&& final(self)@.redo == old(self)@.redo.push(entry)
                &&& final(self)@.next_id == old(self)@.next_id
                &&& final(self)@.base == old(self)@.base
            },
            final(self)@ == undone(old(self)@),
    {
        let ghost old_view = self@;
        let ghost prior = self.undo@;
        let popped = self.undo.pop_back();
        let entry = match popped {
            Some(entry) => entry,
            None => return,
        };
        proof {
            assert(views(prior).last() == entry@);
            assert(views(self.undo@) =~= views(prior).drop_last());
            crate::mesh::lemma_change_holds(old_view.checkpoint, entry@.change, true);
        }
        mesh.apply(&entry.change, false);
        self.checkpoint.apply(&entry.change, false);
        *selection = copy_entry_selection(&entry.before);
        let ghost prior_redo = self.redo@;
        self.redo.push(entry);
        proof {
            assert(views(self.redo@) =~= views(prior_redo).push(entry@));
            assert(views(self.redo@).drop_last() =~= views(prior_redo));
            assert(views(self.redo@).last() == entry@);
        }
    }

    /// Redoes the last undone change, on `mesh` and on the checkpoint, and restores the
    /// selection from after it. Nothing happens when there is nothing to redo.
    pub fn redo(&mut self, mesh: &mut Mesh, selection: &mut Vec<usize>)
        requires
            old(self)@.well_formed(),
            can_redo(old(self)@, old(mesh)@),
        ensures
            final(self)@.well_formed(),
            old(self)@.redo.len() == 0 ==> final(self)@ == old(self)@ && final(mesh)@ == old(mesh)@
                && final(selection)@ == old(selection)@,
            old(self)@.redo.len() > 0 ==> {
                let entry = old(self)@.redo.last();
                &&& final(mesh)@ == changed(old(mesh)@, entry.change, true)
                &&& final(self)@.checkpoint == changed(old(self)@.checkpoint, entry.change, true)
                &&& final(selection)@ == entry.after
                &&& final(self)@.undo == old(self)@.undo.push(entry)
                &&& final(self)@.redo == old(self)@.redo.drop_last()
                &&& final(self)@.next_id == old(self)@.next_id
                &&& final(self)@.base == old(self)@.base
            },
            final(self)@ == redone(old(self)@),
    {
        let ghost old_view = self@;
        let ghost prior = self.redo@;
        let popped = self.redo.pop();
        let entry = match popped {
            Some(entry) => entry,
            None => return,
        };
        proof {
            assert(views(prior).last() == entry@);
            assert(views(self.redo@) =~= views(prior).drop_last());
            crate::mesh::lemma_change_holds(old_view.checkpoint, entry@.change, false);
        }
        mesh.apply(&entry.change, true);
        self.checkpoint.apply(&entry.change, true);
        *selection = copy_entry_selection(&entry.after);
        let ghost prior_undo = self.undo@;
        self.undo.push_back(entry);
        proof {
            assert(views(self.undo@) =~= views(prior_undo).push(entry@));
            assert(views(self.undo@).drop_last() =~= views(prior_undo));
            assert(views(self.undo@).last() == entry@);
        }
    }
}

} // verus!

verus! {

impl Default for History {
    /// A history of an empty mesh, with nothing to undo or redo.
    fn default() -> (history: Self)
        ensures
            history@.undo.len() == 0,
            history@.redo.len() == 0,
            history@.next_id == 0,
            history@.base == 0,
            history@.well_formed(),
    {
        let mesh = Mesh::default();
        History::new(&mesh)
    }
}

} // verus!

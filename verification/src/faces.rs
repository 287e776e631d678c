use crate::element::{copy_indices, slices_equal};
use crate::history::views;
use crate::mesh::{face_color_default, spec_face_color, Mesh, Rgba};
use vstd::prelude::*;

verus! {

broadcast use vstd::seq_lib::group_seq_properties;

/// Every item of `s` is smaller than the next.
pub open spec fn strictly_increasing(s: Seq<usize>) -> bool {
    forall|i: int, j: int| 0 <= i < j < s.len() ==> s[i] < s[j]
}

/// `key` lists the vertices of `face` in increasing order, each once.
pub open spec fn is_key_of(key: Seq<usize>, face: Seq<usize>) -> bool {
    &&& strictly_increasing(key)
    &&& forall|x: usize| key.contains(x) <==> face.contains(x)
}

/// The key of a face: its vertices in increasing order, each once.
pub open spec fn key_of(face: Seq<usize>) -> Seq<usize> {
    choose|key: Seq<usize>| is_key_of(key, face)
}

/// Two increasing sequences with the same items are equal.
pub proof fn lemma_increasing_unique(a: Seq<usize>, b: Seq<usize>)
    requires
        strictly_increasing(a),
        strictly_increasing(b),
        forall|x: usize| a.contains(x) <==> b.contains(x),
    ensures
        a == b,
    decreases a.len(),
{
    if a.len() == 0 {
        if b.len() > 0 {
            assert(b.contains(b[0]));
        }
        assert(a =~= b);
    } else {
        assert(a.contains(a[0]));
        assert(b.len() > 0);
        assert(b.contains(b[0]));
        let j = choose|j: int| 0 <= j < a.len() && a[j] == b[0];
        let k = choose|k: int| 0 <= k < b.len() && b[k] == a[0];
        assert(a[0] == b[0]) by {
            if j > 0 {
                assert(a[0] < a[j]);
            }
            if k > 0 {
                assert(b[0] < b[k]);
            }
        }
        let (ta, tb) = (a.drop_first(), b.drop_first());
        assert forall|x: usize| ta.contains(x) <==> tb.contains(x) by {
            if ta.contains(x) {
                let i = choose|i: int| 0 <= i < ta.len() && ta[i] == x;
                assert(a[i + 1] == x && a[0] < a[i + 1]);
                assert(a.contains(x));
                let m = choose|m: int| 0 <= m < b.len() && b[m] == x;
                assert(m != 0);
                assert(tb[m - 1] == x);
            }
            if tb.contains(x) {
                let i = choose|i: int| 0 <= i < tb.len() && tb[i] == x;
                assert(b[i + 1] == x && b[0] < b[i + 1]);
                assert(b.contains(x));
                let m = choose|m: int| 0 <= m < a.len() && a[m] == x;
                assert(m != 0);
                assert(ta[m - 1] == x);
            }
        }
        lemma_increasing_unique(ta, tb);
        assert(a =~= b);
    }
}

/// A sequence that is a key of a face is the key of that face.
pub proof fn lemma_key_of(key: Seq<usize>, face: Seq<usize>)
    requires
        is_key_of(key, face),
    ensures
        key_of(face) == key,
{
    let chosen = key_of(face);
    assert(is_key_of(chosen, face));
    lemma_increasing_unique(chosen, key);
}

/// The key of a face: its vertices sorted, each kept once.
pub fn face_key(face: &[usize]) -> (key: Vec<usize>)
    ensures
        key@ == key_of(face@),
        is_key_of(key@, face@),
{
    let mut key: Vec<usize> = Vec::new();
    let mut i: usize = 0;
    while i < face.len()
        invariant
            i <= face@.len(),
            strictly_increasing(key@),
            forall|x: usize| key@.contains(x) <==> face@.take(i as int).contains(x),
        decreases face@.len() - i,
    {
        let x = face[i];
        let mut p: usize = 0;
        while p < key.len() && key[p] < x
            invariant
                p <= key@.len(),
                forall|j: int| 0 <= j < p ==> key@[j] < x,
            decreases key@.len() - p,
        {
            p = p + 1;
        }
        assert(face@.take(i + 1) =~= face@.take(i as int).push(x));
        if p < key.len() && key[p] == x {
        } else {
            let ghost prior = key@;
            key.insert(p, x);
            proof {
                assert(key@ =~= prior.insert(p as int, x));
                assert forall|a: int, b: int| 0 <= a < b < key@.len() implies key@[a] < key@[b] by {
                    if b < p {
                    } else if b == p {
                    } else if a < p {
                        assert(prior[a] < x);
                        assert(x <= prior[p as int]);
                        assert(prior[p as int] <= prior[b - 1]);
                    } else if a == p {
                        assert(x <= prior[p as int]);
                        assert(prior[p as int] != x);
                        assert(prior[p as int] <= prior[b - 1]);
                    } else {
                    }
                }
                assert forall|y: usize| key@.contains(y) <==> face@.take(i + 1).contains(y) by {
                    if key@.contains(y) {
                        let m = choose|m: int| 0 <= m < key@.len() && key@[m] == y;
                        if m < p {
                            assert(prior.contains(y));
                        } else if m > p {
                            assert(prior[m - 1] == y);
                            assert(prior.contains(y));
                        }
                    }
                    if prior.contains(y) {
                        let m = choose|m: int| 0 <= m < prior.len() && prior[m] == y;
                        if m < p {
                            assert(key@[m] == y);
                        } else {
                            assert(key@[m + 1] == y);
                        }
                    }
                    assert(key@[p as int] == x);
                }
            }
        }
        i = i + 1;
    }
    proof {
        assert(face@.take(face@.len() as int) =~= face@);
        lemma_key_of(key@, face@);
    }
    key
}

} // verus!

verus! {

/// Whether every vertex of `key` is among `vertices`.
pub open spec fn within(key: Seq<usize>, vertices: Seq<usize>) -> bool {
    forall|i: int| 0 <= i < key.len() ==> vertices.contains(key[i])
}

/// The keys of the faces whose vertices all lie among `vertices`, in the order of `faces`.
pub open spec fn enclosed(faces: Seq<Seq<usize>>, vertices: Seq<usize>) -> Seq<Seq<usize>> {
    faces.map_values(|face: Seq<usize>| key_of(face)).filter(|key: Seq<usize>| within(key, vertices))
}

/// The colour recorded first for the face with `key`, or the default face colour.
pub open spec fn color_in(colors: Seq<(Seq<usize>, Rgba)>, key: Seq<usize>) -> Rgba
    decreases colors.len(),
{
    if colors.len() == 0 {
        spec_face_color()
    } else if colors[0].0 == key {
        colors[0].1
    } else {
        color_in(colors.drop_first(), key)
    }
}

/// Whether `x` is one of `list`.
pub fn listed(list: &[usize], x: usize) -> (found: bool)
    ensures
        found == list@.contains(x),
{
    let mut i: usize = 0;
    while i < list.len()
        invariant
            i <= list@.len(),
            forall|j: int| 0 <= j < i ==> list@[j] != x,
        decreases list@.len() - i,
    {
        if list[i] == x {
            return true;
        }
        i = i + 1;
    }
    false
}

/// Whether `key` is one of the keys in `list`.
pub fn key_listed(list: &[Vec<usize>], key: &[usize]) -> (found: bool)
    ensures
        found == views(list@).contains(key@),
{
    let mut i: usize = 0;
    while i < list.len()
        invariant
            i <= list@.len(),
            forall|j: int| 0 <= j < i ==> views(list@)[j] != key@,
        decreases list@.len() - i,
    {
        if slices_equal(list[i].as_slice(), key) {
            assert(views(list@)[i as int] == key@);
            return true;
        }
        i = i + 1;
    }
    proof {
        if views(list@).contains(key@) {
            let j = choose|j: int| 0 <= j < views(list@).len() && views(list@)[j] == key@;
            assert(views(list@)[j] != key@);
        }
    }
    false
}

pub fn is_within(key: &[usize], vertices: &[usize]) -> (inside: bool)
    ensures
        inside == within(key@, vertices@),
{
    let mut i: usize = 0;
    while i < key.len()
        invariant
            i <= key@.len(),
            forall|j: int| 0 <= j < i ==> vertices@.contains(key@[j]),
        decreases key@.len() - i,
    {
        if !listed(vertices, key[i]) {
            return false;
        }
        i = i + 1;
    }
    true
}

/// The keys of the faces in `faces` whose vertices all lie among `vertices`.
pub fn enclosed_faces(faces: &[Vec<usize>], vertices: &[usize]) -> (keys: Vec<Vec<usize>>)
    ensures
        views(keys@) == enclosed(views(faces@), vertices@),
{
    let ghost all = views(faces@).map_values(|face: Seq<usize>| key_of(face));
    let ghost pred = |key: Seq<usize>| within(key, vertices@);
    let mut keys: Vec<Vec<usize>> = Vec::new();
    let mut i: usize = 0;
    while i < faces.len()
        invariant
            i <= faces@.len(),
            all == views(faces@).map_values(|face: Seq<usize>| key_of(face)),
            pred == |key: Seq<usize>| within(key, vertices@),
            views(keys@) == all.take(i as int).filter(pred),
        decreases faces@.len() - i,
    {
        let key = face_key(faces[i].as_slice());
        assert(all[i as int] == key@);
        assert(all.take(i + 1) =~= all.take(i as int).push(key@));
        proof { all.take(i as int).lemma_filter_push(key@, pred); }
        if is_within(key.as_slice(), vertices) {
            let ghost prior = keys@;
            keys.push(key);
            assert(views(keys@) =~= views(prior).push(key@));
        }
        i = i + 1;
    }
    assert(all.take(faces@.len() as int) =~= all);
    keys
}

/// The holes once the faces with `keys` are toggled: when all of them are holes they
/// are filled again, otherwise all of them become holes (after the other holes).
pub open spec fn toggled(holes: Seq<Seq<usize>>, keys: Seq<Seq<usize>>) -> Seq<Seq<usize>> {
    let fill = forall|i: int| 0 <= i < keys.len() ==> holes.contains(keys[i]);
    let kept = holes.filter(|hole: Seq<usize>| !keys.contains(hole));
    if fill { kept } else { kept + keys }
}

/// The colours once the faces with `keys` get `color`: their old entries go, and an entry
/// for each of them follows the others.
pub open spec fn recolored(colors: Seq<(Seq<usize>, Rgba)>, keys: Seq<Seq<usize>>, color: Rgba) -> Seq<(Seq<usize>, Rgba)> {
    colors.filter(|entry: (Seq<usize>, Rgba)| !keys.contains(entry.0)) + keys.map_values(|key: Seq<usize>| (key, color))
}

proof fn lemma_filter_all<A>(s: Seq<A>, pred: spec_fn(A) -> bool)
    requires
        forall|i: int| 0 <= i < s.len() ==> pred(#[trigger] s[i]),
    ensures
        s.filter(pred) == s,
    decreases s.len(),
{
    reveal(Seq::filter);
    if s.len() > 0 {
        lemma_filter_all(s.drop_last(), pred);
        assert(pred(s[s.len() - 1]));
        assert(s.drop_last().push(s.last()) =~= s);
    }
}

proof fn lemma_filter_none<A>(s: Seq<A>, pred: spec_fn(A) -> bool)
    requires
        forall|i: int| 0 <= i < s.len() ==> !pred(#[trigger] s[i]),
    ensures
        s.filter(pred) == Seq::<A>::empty(),
    decreases s.len(),
{
    reveal(Seq::filter);
    if s.len() > 0 {
        lemma_filter_none(s.drop_last(), pred);
        assert(!pred(s[s.len() - 1]));
    }
}

/// Toggling the holes of the same faces twice gives the holes back, when none of those
/// faces was a hole to begin with.
pub proof fn lemma_toggle_twice(holes: Seq<Seq<usize>>, keys: Seq<Seq<usize>>)
    requires
        forall|i: int| 0 <= i < keys.len() ==> !holes.contains(#[trigger] keys[i]),
    ensures
        toggled(toggled(holes, keys), keys) == holes,
{
    let pred = |hole: Seq<usize>| !keys.contains(hole);
    assert forall|i: int| 0 <= i < holes.len() implies pred(#[trigger] holes[i]) by {
        if keys.contains(holes[i]) {
            let k = choose|k: int| 0 <= k < keys.len() && keys[k] == holes[i];
            assert(holes.contains(keys[k]));
        }
    }
    lemma_filter_all(holes, pred);
    if keys.len() == 0 {
        assert(holes.filter(pred) == holes);
    } else {
        assert(!holes.contains(keys[0]));
        let once = holes + keys;
        assert(toggled(holes, keys) == once);
        assert forall|i: int| 0 <= i < keys.len() implies once.contains(keys[i]) by {
            assert(once[holes.len() + i] == keys[i]);
        }
        assert forall|i: int| 0 <= i < keys.len() implies !pred(#[trigger] keys[i]) by {
            assert(keys.contains(keys[i]));
        }
        lemma_filter_none(keys, pred);
        Seq::filter_distributes_over_add(holes, keys, pred);
        assert(once.filter(pred) =~= holes);
    }
}

/// Toggling the holes of the same faces twice gives the same holes back, in another
/// order, when all of those faces were holes to begin with.
pub proof fn lemma_toggle_twice_filled(holes: Seq<Seq<usize>>, keys: Seq<Seq<usize>>)
    requires
        forall|i: int| 0 <= i < keys.len() ==> holes.contains(#[trigger] keys[i]),
    ensures
        forall|hole: Seq<usize>| toggled(toggled(holes, keys), keys).contains(hole) <==> holes.contains(hole),
{
    let pred = |hole: Seq<usize>| !keys.contains(hole);
    let kept = holes.filter(pred);
    assert forall|i: int| 0 <= i < kept.len() implies pred(#[trigger] kept[i]) by {
        holes.lemma_filter_pred(pred, i);
    }
    assert(toggled(holes, keys) == kept);
    if keys.len() == 0 {
        assert forall|i: int| 0 <= i < holes.len() implies pred(#[trigger] holes[i]) by {}
        lemma_filter_all(holes, pred);
        assert forall|i: int| 0 <= i < kept.len() implies pred(#[trigger] kept[i]) by {}
        lemma_filter_all(kept, pred);
    } else {
        assert(!kept.contains(keys[0])) by {
            if kept.contains(keys[0]) {
                let i = choose|i: int| 0 <= i < kept.len() && kept[i] == keys[0];
                assert(pred(kept[i]));
                assert(keys.contains(keys[0]));
            }
        }
        assert forall|i: int| 0 <= i < kept.len() implies pred(#[trigger] kept[i]) by {}
        lemma_filter_all(kept, pred);
        let twice = kept + keys;
        assert(toggled(kept, keys) == twice);
        assert forall|hole: Seq<usize>| twice.contains(hole) <==> holes.contains(hole) by {
            if twice.contains(hole) {
                let i = choose|i: int| 0 <= i < twice.len() && twice[i] == hole;
                if i < kept.len() {
                    assert(kept[i] == hole);
                    assert(kept.contains(hole));
                    holes.lemma_filter_contains_rev(pred, hole);
                } else {
                    assert(keys[i - kept.len()] == hole);
                }
            }
            if holes.contains(hole) {
                if keys.contains(hole) {
                    let k = choose|k: int| 0 <= k < keys.len() && keys[k] == hole;
                    assert(twice[kept.len() + k] == hole);
                } else {
                    let i = choose|i: int| 0 <= i < holes.len() && holes[i] == hole;
                    holes.lemma_filter_contains(pred, i);
                    let j = choose|j: int| 0 <= j < kept.len() && kept[j] == hole;
                    assert(twice[j] == hole);
                }
            }
        }
    }
}

proof fn lemma_color_skips(colors: Seq<(Seq<usize>, Rgba)>, rest: Seq<(Seq<usize>, Rgba)>, key: Seq<usize>)
    requires
        forall|i: int| 0 <= i < colors.len() ==> (#[trigger] colors[i]).0 != key,
    ensures
        color_in(colors + rest, key) == color_in(rest, key),
    decreases colors.len(),
{
    if colors.len() > 0 {
        assert((colors + rest)[0] == colors[0]);
        assert((colors + rest).drop_first() =~= colors.drop_first() + rest);
        assert forall|i: int| 0 <= i < colors.drop_first().len() implies (#[trigger] colors.drop_first()[i]).0 != key by {
            assert(colors.drop_first()[i] == colors[i + 1]);
        }
        lemma_color_skips(colors.drop_first(), rest, key);
    } else {
        assert(colors + rest =~= rest);
    }
}

/// After the faces with `keys` are given `color`, the colour read for the first of them
/// is `color`: what `face_color` reports after `set_color`.
pub proof fn lemma_recolor_then_read(colors: Seq<(Seq<usize>, Rgba)>, keys: Seq<Seq<usize>>, color: Rgba)
    requires
        keys.len() > 0,
    ensures
        color_in(recolored(colors, keys, color), keys[0]) == color,
{
    let pred = |entry: (Seq<usize>, Rgba)| !keys.contains(entry.0);
    let kept = colors.filter(pred);
    let added = keys.map_values(|key: Seq<usize>| (key, color));
    assert forall|i: int| 0 <= i < kept.len() implies (#[trigger] kept[i]).0 != keys[0] by {
        colors.lemma_filter_pred(pred, i);
        assert(keys.contains(keys[0]));
    }
    lemma_color_skips(kept, added, keys[0]);
    assert(added[0] == (keys[0], color));
}

impl Mesh {
    /// The colour of the face with `key`: the first one recorded for it, or the default.
    pub fn color_of(&self, key: &[usize]) -> (color: Rgba)
        ensures
            color == color_in(self@.colors, key@),
    {
        let ghost colors = self@.colors;
        let mut i: usize = 0;
        while i < self.colors.len()
            invariant
                i <= self.colors@.len(),
                colors == self@.colors,
                color_in(colors, key@) == color_in(colors.skip(i as int), key@),
            decreases self.colors@.len() - i,
        {
            assert(colors.skip(i as int)[0] == self.colors@[i as int]@);
            assert(colors.skip(i as int).drop_first() =~= colors.skip(i + 1));
            if slices_equal(self.colors[i].0.as_slice(), key) {
                return self.colors[i].1;
            }
            i = i + 1;
        }
        face_color_default()
    }

    /// The faces of `faces` that are not marked as holes.
    pub fn filled_faces(&self, faces: &[Vec<usize>]) -> (filled: Vec<Vec<usize>>)
        ensures
            views(filled@) == views(faces@).filter(|face: Seq<usize>| !self@.holes.contains(key_of(face))),
    {
        let ghost pred = |face: Seq<usize>| !self@.holes.contains(key_of(face));
        let mut filled: Vec<Vec<usize>> = Vec::new();
        let mut i: usize = 0;
        while i < faces.len()
            invariant
                i <= faces@.len(),
                pred == |face: Seq<usize>| !self@.holes.contains(key_of(face)),
                views(filled@) == views(faces@).take(i as int).filter(pred),
            decreases faces@.len() - i,
        {
            let face = copy_indices(faces[i].as_slice());
            assert(views(faces@)[i as int] == face@);
            assert(views(faces@).take(i + 1) =~= views(faces@).take(i as int).push(face@));
            proof { views(faces@).take(i as int).lemma_filter_push(face@, pred); }
            let key = face_key(face.as_slice());
            if !key_listed(self.holes.as_slice(), key.as_slice()) {
                let ghost prior = filled@;
                filled.push(face);
                assert(views(filled@) =~= views(prior).push(faces@[i as int]@));
            }
            i = i + 1;
        }
        assert(views(faces@).take(faces@.len() as int) =~= views(faces@));
        filled
    }

    /// Marks as holes the faces enclosed by `vertices`, or, when all of them are holes
    /// already, fills them again.
    pub fn toggle_hole(&mut self, faces: &[Vec<usize>], vertices: &[usize])
        ensures
            final(self)@.holes == toggled(old(self)@.holes, enclosed(views(faces@), vertices@)),
            final(self).vertices == old(self).vertices,
            final(self).edges == old(self).edges,
            final(self).layers == old(self).layers,
            final(self).vertex_layers == old(self).vertex_layers,
            final(self).colors == old(self).colors,
            final(self).images == old(self).images,
    {
        let keys = enclosed_faces(faces, vertices);
        let ghost ks = views(keys@);
        let mut fill = true;
        let mut i: usize = 0;
        while i < keys.len()
            invariant
                i <= keys@.len(),
                ks == views(keys@),
                fill == forall|j: int| 0 <= j < i ==> self@.holes.contains(ks[j]),
            decreases keys@.len() - i,
        {
            assert(ks[i as int] == keys@[i as int]@);
            fill = fill && key_listed(self.holes.as_slice(), keys[i].as_slice());
            i = i + 1;
        }
        let ghost pred = |hole: Seq<usize>| !ks.contains(hole);
        let ghost holes = self@.holes;
        let mut kept: Vec<Vec<usize>> = Vec::new();
        let mut i: usize = 0;
        while i < self.holes.len()
            invariant
                i <= self.holes@.len(),
                holes == views(self.holes@),
                ks == views(keys@),
                pred == |hole: Seq<usize>| !ks.contains(hole),
                views(kept@) == holes.take(i as int).filter(pred),
            decreases self.holes@.len() - i,
        {
            let hole = copy_indices(self.holes[i].as_slice());
            assert(holes[i as int] == hole@);
            assert(holes.take(i + 1) =~= holes.take(i as int).push(hole@));
            proof { holes.take(i as int).lemma_filter_push(hole@, pred); }
            if !key_listed(keys.as_slice(), hole.as_slice()) {
                let ghost prior = kept@;
                kept.push(hole);
                assert(views(kept@) =~= views(prior).push(hole@));
            }
            i = i + 1;
        }
        assert(holes.take(holes.len() as int) =~= holes);
        if !fill {
            let ghost prior = kept@;
            let mut extra = keys;
            kept.append(&mut extra);
            assert(views(kept@) =~= views(prior) + ks);
        }
        self.holes = kept;
    }

    /// The colour of the first face enclosed by `vertices`, if there is one.
    pub fn face_color(&self, faces: &[Vec<usize>], vertices: &[usize]) -> (color: Option<Rgba>)
        ensures
            ({
                let keys = enclosed(views(faces@), vertices@);
                color == if keys.len() == 0 { None } else { Some(color_in(self@.colors, keys[0])) }
            }),
    {
        let keys = enclosed_faces(faces, vertices);
        if keys.len() == 0 {
            return None;
        }
        assert(views(keys@)[0] == keys@[0]@);
        Some(self.color_of(keys[0].as_slice()))
    }

    /// Gives every face enclosed by `vertices` the colour `color`, replacing the colours
    /// they had.
    pub fn set_color(&mut self, faces: &[Vec<usize>], vertices: &[usize], color: Rgba)
        ensures
            final(self)@.colors == recolored(old(self)@.colors, enclosed(views(faces@), vertices@), color),
            final(self).vertices == old(self).vertices,
            final(self).edges == old(self).edges,
            final(self).layers == old(self).layers,
            final(self).vertex_layers == old(self).vertex_layers,
            final(self).holes == old(self).holes,
            final(self).images == old(self).images,
    {
        let keys = enclosed_faces(faces, vertices);
        let ghost ks = views(keys@);
        let ghost pred = |entry: (Seq<usize>, Rgba)| !ks.contains(entry.0);
        let ghost colors = self@.colors;
        let mut kept: Vec<(Vec<usize>, Rgba)> = Vec::new();
        let mut i: usize = 0;
        while i < self.colors.len()
            invariant
                i <= self.colors@.len(),
                colors == views(self.colors@),
                ks == views(keys@),
                pred == |entry: (Seq<usize>, Rgba)| !ks.contains(entry.0),
                views(kept@) == colors.take(i as int).filter(pred),
            decreases self.colors@.len() - i,
        {
            let entry = (copy_indices(self.colors[i].0.as_slice()), self.colors[i].1);
            assert(colors[i as int] == entry@);
            assert(colors.take(i + 1) =~= colors.take(i as int).push(entry@));
            proof { colors.take(i as int).lemma_filter_push(entry@, pred); }
            if !key_listed(keys.as_slice(), entry.0.as_slice()) {
                let ghost prior = kept@;
                kept.push(entry);
                assert(views(kept@) =~= views(prior).push(entry@));
            }
            i = i + 1;
        }
        assert(colors.take(colors.len() as int) =~= colors);
        let ghost base = views(kept@);
        let mut j: usize = 0;
        while j < keys.len()
            invariant
                j <= keys@.len(),
                ks == views(keys@),
                views(kept@) == base + ks.take(j as int).map_values(|key: Seq<usize>| (key, color)),
            decreases keys@.len() - j,
        {
            let entry = (copy_indices(keys[j].as_slice()), color);
            assert(ks[j as int] == keys@[j as int]@);
            let ghost prior = kept@;
            kept.push(entry);
            assert(views(kept@) =~= views(prior).push(entry@));
            j = j + 1;
            assert(ks.take(j as int).map_values(|key: Seq<usize>| (key, color)) =~= ks.take(j - 1).map_values(|key: Seq<usize>| (key, color)).push((ks[j - 1], color)));
            assert(views(kept@) =~= base + ks.take(j as int).map_values(|key: Seq<usize>| (key, color)));
        }
        assert(ks.take(keys@.len() as int) =~= ks);
        self.colors = kept;
    }
}

} // verus!

use vstd::prelude::*;

verus! {

/// A value that the undo history can compare and copy.
///
/// `agree` says when two views count as equal in a comparison: for most values
/// exactly when they are equal, for numbers as the numbers they encode. `same`
/// decides it, and `duplicate` gives a value with the same view.
pub trait Element: View + Sized {
    spec fn agree(a: Self::V, b: Self::V) -> bool;

    fn same(&self, other: &Self) -> (equal: bool)
        ensures
            equal == Self::agree(self@, other@),
    ;

    fn duplicate(&self) -> (copy: Self)
        ensures
            copy@ == self@,
    ;
}

impl Element for u32 {
    open spec fn agree(a: u32, b: u32) -> bool {
        a == b
    }

    fn same(&self, other: &Self) -> (equal: bool) {
        *self == *other
    }

    fn duplicate(&self) -> (copy: Self) {
        *self
    }
}

impl Element for [usize; 2] {
    open spec fn agree(a: Seq<usize>, b: Seq<usize>) -> bool {
        a == b
    }

    fn same(&self, other: &Self) -> (equal: bool) {
        let equal = self[0] == other[0] && self[1] == other[1];
        proof {
            if equal {
                assert(self@ =~= other@);
            }
        }
        equal
    }

    fn duplicate(&self) -> (copy: Self) {
        let copy = [self[0], self[1]];
        assert(copy@ =~= self@);
        copy
    }
}

impl Element for Vec<usize> {
    open spec fn agree(a: Seq<usize>, b: Seq<usize>) -> bool {
        a == b
    }

    fn same(&self, other: &Self) -> (equal: bool) {
        slices_equal(self.as_slice(), other.as_slice())
    }

    fn duplicate(&self) -> (copy: Self) {
        copy_indices(self.as_slice())
    }
}

/// Whether two index lists hold the same indices in the same order.
pub fn slices_equal(a: &[usize], b: &[usize]) -> (equal: bool)
    ensures
        equal == (a@ == b@),
{
    if a.len() != b.len() {
        return false;
    }
    let mut i: usize = 0;
    while i < a.len()
        invariant
            a@.len() == b@.len(),
            i <= a@.len(),
            forall|j: int| 0 <= j < i ==> a@[j] == b@[j],
        decreases a@.len() - i,
    {
        if a[i] != b[i] {
            return false;
        }
        i = i + 1;
    }
    assert(a@ =~= b@);
    true
}

/// A fresh vector holding the given indices.
pub fn copy_indices(a: &[usize]) -> (copy: Vec<usize>)
    ensures
        copy@ == a@,
{
    let mut copy: Vec<usize> = Vec::new();
    let mut i: usize = 0;
    while i < a.len()
        invariant
            i <= a@.len(),
            copy@ == a@.take(i as int),
        decreases a@.len() - i,
    {
        copy.push(a[i]);
        i = i + 1;
        assert(copy@ =~= a@.take(i as int));
    }
    assert(a@.take(a@.len() as int) =~= a@);
    copy
}

} // verus!

//! Identities of set algebra, stated of the sets themselves.

use vstd::prelude::*;
use crate::bitmap::RoaringBitmap;
use crate::ops::symmetric_difference;
use crate::util::Halveable;

verus! {

/// What is in exactly one of two sets is what is in the first and not in
/// the second, together with what is in the second and not in the first.
pub proof fn lemma_symmetric_difference_is_union_of_differences<Size: Halveable>(
    a: &RoaringBitmap<Size>,
    b: &RoaringBitmap<Size>,
)
    ensures
        symmetric_difference(a@, b@) == a@.difference(b@).union(b@.difference(a@)),
{
    assert(symmetric_difference(a@, b@) =~= a@.difference(b@).union(b@.difference(a@)));
}

/// What is in both of two sets is what is in either and not in exactly
/// one.
pub proof fn lemma_intersection_is_union_less_symmetric_difference<Size: Halveable>(
    a: &RoaringBitmap<Size>,
    b: &RoaringBitmap<Size>,
)
    ensures
        a@.intersect(b@) == a@.union(b@).difference(symmetric_difference(a@, b@)),
{
    assert(a@.intersect(b@) =~= a@.union(b@).difference(symmetric_difference(a@, b@)));
}

/// Two sets have no value in common exactly where nothing is in both.
pub proof fn lemma_disjoint_is_empty_intersection<Size: Halveable>(
    a: &RoaringBitmap<Size>,
    b: &RoaringBitmap<Size>,
)
    ensures
        a@.disjoint(b@) <==> a@.intersect(b@) == Set::<int>::empty(),
{
    if a@.disjoint(b@) {
        assert(a@.intersect(b@) =~= Set::<int>::empty());
    }
    if a@.intersect(b@) == Set::<int>::empty() {
        assert forall|x: int| !(a@.contains(x) && b@.contains(x)) by {
            if a@.contains(x) && b@.contains(x) {
                assert(a@.intersect(b@).contains(x));
            }
        }
    }
}

/// A set with more values than another is no subset of it.
pub proof fn lemma_larger_is_no_subset<Size: Halveable>(
    a: &RoaringBitmap<Size>,
    b: &RoaringBitmap<Size>,
)
    requires
        a.wf(),
        b.wf(),
        a@.len() > b@.len(),
    ensures
        !a@.subset_of(b@),
{
    a.lemma_view();
    b.lemma_view();
    if a@.subset_of(b@) {
        vstd::set_lib::lemma_len_subset(a@, b@);
    }
}

} // verus!

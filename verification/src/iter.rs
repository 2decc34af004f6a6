//! Sequences that hand out the values of a set, or of what an operation
//! makes of two sets, one at a time and in increasing order.

use vstd::prelude::*;
use crate::bitmap::RoaringBitmap;
use crate::ops::{is_next, SetOp};
use crate::store::val_of;
use crate::util::{ExtInt, Halveable};

verus! {

/// The smallest value of `set` that is greater than `v`.
pub fn next_after<Size: Halveable>(set: &RoaringBitmap<Size>, v: Size) -> (r: Option<Size>)
    requires
        set.wf(),
    ensures
        is_next(set@, v.val() + 1, val_of(r)),
{
    let w: u64 = v.to64();
    if w == Size::max_value().to64() {
        proof {
            set.lemma_view();
        }
        None
    } else {
        set.next_from(Size::from64(w + 1))
    }
}

/// The values of a set in increasing order, one at a time.
pub struct Iter<'a, Size: Halveable> {
    set: &'a RoaringBitmap<Size>,
    from: Option<Size>,
}

impl<'a, Size: Halveable> Iter<'a, Size> {
    /// The set whose values are handed out.
    pub closed spec fn source(&self) -> RoaringBitmap<Size> {
        *self.set
    }

    /// The number below which every value has been handed out.
    pub closed spec fn floor(&self) -> int {
        match self.from {
            Some(from) => from.val(),
            None => Size::domain(),
        }
    }

    /// The numbers that are still to come.
    pub open spec fn remaining(&self) -> Set<int> {
        Set::new(|x: int| self.source()@.contains(x) && x >= self.floor())
    }

    /// Whether the sequence is in a valid state.
    pub open spec fn wf(&self) -> bool {
        self.source().wf()
    }

    /// A sequence of all values of `set`.
    pub fn new(set: &'a RoaringBitmap<Size>) -> (r: Self)
        requires
            set.wf(),
        ensures
            r.wf(),
            r.source() == *set,
            r.remaining() == set@,
    {
        let r = Iter { set: set, from: Some(Size::from64(0)) };
        proof {
            Size::lemma_domain();
            set.lemma_view();
            assert(r.remaining() =~= set@);
        }
        r
    }

    /// The next value: the smallest that is still to come. `None` once
    /// there is none left.
    pub fn next(&mut self) -> (r: Option<Size>)
        requires
            old(self).wf(),
        ensures
            final(self).wf(),
            final(self).source() == old(self).source(),
            match r {
                Some(v) => {
                    &&& old(self).remaining().contains(v.val())
                    &&& forall|x: int| old(self).remaining().contains(x) ==> v.val() <= x
                    &&& final(self).remaining() == old(self).remaining().remove(v.val())
                },
                None => {
                    &&& old(self).remaining() == Set::<int>::empty()
                    &&& final(self).remaining() == Set::<int>::empty()
                },
            },
    {
        proof {
            Size::lemma_domain();
            self.set.lemma_view();
        }
        let found: Option<Size> = match self.from {
            Some(from) => self.set.next_from(from),
            None => None,
        };
        match found {
            Some(v) => {
                let w: u64 = v.to64();
                proof {
                    v.lemma_val(v);
                }
                if w == Size::max_value().to64() {
                    self.from = None;
                } else {
                    self.from = Some(Size::from64(w + 1));
                }
                proof {
                    assert(self.remaining() =~= old(self).remaining().remove(v.val()));
                }
                Some(v)
            },
            None => {
                self.from = None;
                proof {
                    assert(old(self).remaining() =~= Set::<int>::empty());
                    assert(self.remaining() =~= Set::<int>::empty());
                }
                None
            },
        }
    }
}

/// What an operation makes of two sets, in increasing order and one value
/// at a time. The sequence looks one value ahead on each side and moves on
/// the side, or the sides, whose value is the smaller.
pub struct MergeIter<'a, Size: Halveable> {
    left: &'a RoaringBitmap<Size>,
    right: &'a RoaringBitmap<Size>,
    op: SetOp,
    ahead_left: Option<Size>,
    ahead_right: Option<Size>,
}

impl<'a, Size: Halveable> MergeIter<'a, Size> {
    /// The first of the two sets.
    pub closed spec fn first(&self) -> RoaringBitmap<Size> {
        *self.left
    }

    /// The second of the two sets.
    pub closed spec fn second(&self) -> RoaringBitmap<Size> {
        *self.right
    }

    /// The operation.
    pub closed spec fn operation(&self) -> SetOp {
        self.op
    }

    /// The value that the sequence has looked ahead to in the first set.
    pub closed spec fn first_ahead(&self) -> Option<int> {
        val_of(self.ahead_left)
    }

    /// The value that the sequence has looked ahead to in the second set.
    pub closed spec fn second_ahead(&self) -> Option<int> {
        val_of(self.ahead_right)
    }

    /// The number below which every value of either set has been looked
    /// at: the smaller of the two values ahead.
    pub open spec fn low(&self) -> int {
        match (self.first_ahead(), self.second_ahead()) {
            (Some(a), Some(b)) => if a <= b {
                a
            } else {
                b
            },
            (Some(a), None) => a,
            (None, Some(b)) => b,
            (None, None) => Size::domain(),
        }
    }

    /// The numbers that are still to come.
    pub open spec fn remaining(&self) -> Set<int> {
        Set::new(
            |x: int|
                self.operation().set(self.first()@, self.second()@).contains(x) && x >= self.low(),
        )
    }

    /// Whether the sequence is in a valid state: both sets are valid, and
    /// on each side the value ahead is the smallest that has not been
    /// looked at.
    pub open spec fn wf(&self) -> bool {
        &&& self.first().wf()
        &&& self.second().wf()
        &&& is_next(self.first()@, self.low(), self.first_ahead())
        &&& is_next(self.second()@, self.low(), self.second_ahead())
    }

    /// A sequence of all values of what `op` makes of `left` and `right`.
    pub fn new(left: &'a RoaringBitmap<Size>, op: SetOp, right: &'a RoaringBitmap<Size>) -> (r:
        Self)
        requires
            left.wf(),
            right.wf(),
        ensures
            r.wf(),
            r.first() == *left,
            r.second() == *right,
            r.operation() == op,
            r.remaining() == op.set(left@, right@),
    {
        let zero: Size = Size::from64(0);
        let r = MergeIter {
            left: left,
            right: right,
            op: op,
            ahead_left: left.next_from(zero),
            ahead_right: right.next_from(zero),
        };
        proof {
            Size::lemma_domain();
            left.lemma_view();
            right.lemma_view();
            op.lemma_set(left@, right@);
            assert(r.remaining() =~= op.set(left@, right@));
        }
        r
    }

    /// The next value: the smallest that is still to come. `None` once
    /// there is none left.
    pub fn next(&mut self) -> (r: Option<Size>)
        requires
            old(self).wf(),
        ensures
            final(self).wf(),
            final(self).first() == old(self).first(),
            final(self).second() == old(self).second(),
            final(self).operation() == old(self).operation(),
            match r {
                Some(v) => {
                    &&& old(self).remaining().contains(v.val())
                    &&& forall|x: int| old(self).remaining().contains(x) ==> v.val() <= x
                    &&& final(self).remaining() == old(self).remaining().remove(v.val())
                },
                None => {
                    &&& old(self).remaining() == Set::<int>::empty()
                    &&& final(self).remaining() == Set::<int>::empty()
                },
            },
    {
        proof {
            Size::lemma_domain();
            self.left.lemma_view();
            self.right.lemma_view();
            self.op.lemma_set(self.left@, self.right@);
        }
        loop
            invariant
                self.wf(),
                self.first() == old(self).first(),
                self.second() == old(self).second(),
                self.operation() == old(self).operation(),
                self.remaining() == old(self).remaining(),
                self.low() <= Size::domain(),
                forall|x: int|
                    #[trigger] self.op.set(self.left@, self.right@).contains(x) == self.op.member(
                        self.left@.contains(x),
                        self.right@.contains(x),
                    ),
                forall|x: int| self.left@.contains(x) ==> 0 <= x < Size::domain(),
                forall|x: int| self.right@.contains(x) ==> 0 <= x < Size::domain(),
            decreases Size::domain() - self.low(),
        {
            let ghost before = *self;
            let (least, in_left, in_right): (Size, bool, bool) = match (
                self.ahead_left,
                self.ahead_right,
            ) {
                (None, None) => {
                    proof {
                        assert(self.remaining() =~= Set::<int>::empty());
                    }
                    return None;
                },
                (Some(a), None) => (a, true, false),
                (None, Some(b)) => (b, false, true),
                (Some(a), Some(b)) => {
                    let x: u64 = a.to64();
                    let y: u64 = b.to64();
                    if x < y {
                        (a, true, false)
                    } else if y < x {
                        (b, false, true)
                    } else {
                        (a, true, true)
                    }
                },
            };
            proof {
                least.lemma_val(least);
                assert(before.low() == least.val());
                assert(in_left == self.left@.contains(least.val()));
                assert(in_right == self.right@.contains(least.val()));
            }
            if in_left {
                self.ahead_left = next_after(self.left, least);
            }
            if in_right {
                self.ahead_right = next_after(self.right, least);
            }
            let yields: bool = match self.op {
                SetOp::Union => true,
                SetOp::Intersection => in_left && in_right,
                SetOp::Difference => in_left && !in_right,
                SetOp::SymmetricDifference => in_left != in_right,
            };
            proof {
                let m = least.val();
                assert(is_next(self.left@, m + 1, self.first_ahead()));
                assert(is_next(self.right@, m + 1, self.second_ahead()));
                match self.ahead_left {
                    Some(a) => {
                        a.lemma_val(a);
                    },
                    None => {},
                }
                match self.ahead_right {
                    Some(b) => {
                        b.lemma_val(b);
                    },
                    None => {},
                }
                assert(m + 1 <= self.low() <= Size::domain());
                assert(yields == self.op.set(self.left@, self.right@).contains(m));
                if yields {
                    assert(self.remaining() =~= before.remaining().remove(m));
                } else {
                    assert(self.remaining() =~= before.remaining());
                }
            }
            if yields {
                return Some(least);
            }
        }
    }
}

impl<Size: Halveable> RoaringBitmap<Size> {
    /// The values of the set in increasing order, one at a time.
    pub fn iter<'a>(&'a self) -> (r: Iter<'a, Size>)
        requires
            self.wf(),
        ensures
            r.wf(),
            r.source() == *self,
            r.remaining() == self@,
    {
        Iter::new(self)
    }

    /// The values of what `op` makes of this set and `other`, in
    /// increasing order and one at a time. No set is built for them.
    pub fn merged<'a>(&'a self, op: SetOp, other: &'a Self) -> (r: MergeIter<'a, Size>)
        requires
            self.wf(),
            other.wf(),
        ensures
            r.wf(),
            r.first() == *self,
            r.second() == *other,
            r.operation() == op,
            r.remaining() == op.set(self@, other@),
    {
        MergeIter::new(self, op, other)
    }
}

} // verus!

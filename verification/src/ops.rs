//! The four operations of set algebra, and what they mean for sets of
//! numbers.

use vstd::prelude::*;

verus! {

/// The numbers that are in exactly one of two sets.
pub open spec fn symmetric_difference(s: Set<int>, t: Set<int>) -> Set<int> {
    Set::new(|x: int| s.contains(x) != t.contains(x))
}

/// Whether `r` is the smallest number of `s` that is no smaller than
/// `from`: `None` where `s` has no such number.
pub open spec fn is_next(s: Set<int>, from: int, r: Option<int>) -> bool {
    match r {
        Some(v) => {
            &&& s.contains(v)
            &&& from <= v
            &&& forall|x: int| s.contains(x) && from <= x ==> v <= x
        },
        None => forall|x: int| s.contains(x) ==> x < from,
    }
}

/// One of the four operations of set algebra.
#[derive(Debug, PartialEq, Eq, Clone, Copy)]
pub enum SetOp {
    /// What is in either set.
    Union,
    /// What is in both sets.
    Intersection,
    /// What is in the first set and not in the second.
    Difference,
    /// What is in exactly one of the sets.
    SymmetricDifference,
}

impl SetOp {
    /// Whether the result holds a number, given whether the first and
    /// whether the second set holds it.
    pub open spec fn member(self, first: bool, second: bool) -> bool {
        match self {
            SetOp::Union => first || second,
            SetOp::Intersection => first && second,
            SetOp::Difference => first && !second,
            SetOp::SymmetricDifference => first != second,
        }
    }

    /// The set that the operation makes of two sets.
    pub open spec fn set(self, s: Set<int>, t: Set<int>) -> Set<int> {
        match self {
            SetOp::Union => s.union(t),
            SetOp::Intersection => s.intersect(t),
            SetOp::Difference => s.difference(t),
            SetOp::SymmetricDifference => symmetric_difference(s, t),
        }
    }

    /// The word that the operation makes of two words, bit by bit.
    pub open spec fn word(self, w1: u64, w2: u64) -> u64 {
        match self {
            SetOp::Union => w1 | w2,
            SetOp::Intersection => w1 & w2,
            SetOp::Difference => w1 & !w2,
            SetOp::SymmetricDifference => w1 ^ w2,
        }
    }

    /// Whether the result keeps what is in the first set alone.
    pub fn keeps_first(self) -> (r: bool)
        ensures
            r == self.member(true, false),
    {
        match self {
            SetOp::Union => true,
            SetOp::Intersection => false,
            SetOp::Difference => true,
            SetOp::SymmetricDifference => true,
        }
    }

    /// Whether the result keeps what is in the second set alone.
    pub fn keeps_second(self) -> (r: bool)
        ensures
            r == self.member(false, true),
    {
        match self {
            SetOp::Union => true,
            SetOp::Intersection => false,
            SetOp::Difference => false,
            SetOp::SymmetricDifference => true,
        }
    }

    /// The result holds exactly the numbers that `member` says.
    pub proof fn lemma_set(self, s: Set<int>, t: Set<int>)
        ensures
            forall|x: int|
                #[trigger] self.set(s, t).contains(x) == self.member(
                    s.contains(x),
                    t.contains(x),
                ),
    {
    }
}

} // verus!

//! The values of one container, held either as a sorted array or as a
//! dense bitmap.

use vstd::prelude::*;
use crate::bits::{
    bits_contain, bits_set, bits_set_below, combine_words, count_below, has_bit, lemma_bit_ops,
    lemma_bit_place, lemma_bits_set_len, lemma_clear_bit, lemma_count_word, lemma_highest_bit,
    lemma_lowest_bit, lemma_ones_bound, lemma_set_bit, lemma_zero_word, words_disjoint,
    words_within,
};
use crate::ops::{is_next, symmetric_difference, SetOp};
use crate::sorted::{
    array_within_array, arrays_disjoint, copy_values, difference_arrays, increasing,
    intersect_arrays, lemma_increasing_len, lemma_insert_at, lemma_one_order, lemma_push,
    lemma_push_set, lemma_remove_at, lemma_removed, search, symmetric_difference_arrays, vals,
};
use crate::util::ExtInt;

verus! {

/// Whether a width is narrow enough for the values of a store: a store
/// takes values of up to 32 bits.
pub open spec fn narrow<Size: ExtInt>() -> bool {
    Size::domain() <= 0x1_0000_0000
}

/// The number that a value stands for, where there is one.
pub open spec fn val_of<Size: ExtInt>(r: Option<Size>) -> Option<int> {
    match r {
        Some(v) => Some(v.val()),
        None => None,
    }
}

/// The values of one container.
#[derive(Debug, PartialEq)]
pub enum Store<Size: ExtInt> {
    /// The values in increasing order, each once.
    Array(Vec<Size>),
    /// One bit for each value of the width, set where the value is present.
    Bitmap(Vec<u64>),
}

impl<Size: ExtInt> View for Store<Size> {
    type V = Set<int>;

    /// The set of numbers that the store holds.
    open spec fn view(&self) -> Set<int> {
        match self {
            Store::Array(vec) => vals(vec@).to_set(),
            Store::Bitmap(bits) => bits_set(bits@),
        }
    }
}

/// The word of a bitmap that holds the bit of `index`.
pub fn key<Size: ExtInt>(index: Size) -> (r: usize)
    requires
        narrow::<Size>(),
    ensures
        r == index.val() / 64,
{
    proof {
        Size::lemma_domain();
    }
    (index.to64() / 64) as usize
}

/// The place within its word of the bit of `index`.
pub fn bit<Size: ExtInt>(index: Size) -> (r: usize)
    ensures
        r == index.val() % 64,
{
    (index.to64() % 64) as usize
}

/// The word and the place within it of the bit of `index`.
pub fn bitmap_location<Size: ExtInt>(index: Size) -> (r: (usize, usize))
    requires
        narrow::<Size>(),
    ensures
        r.0 == index.val() / 64,
        r.1 == index.val() % 64,
{
    (key(index), bit(index))
}

impl<Size: ExtInt> Store<Size> {
    /// Whether the store is in a valid state: the width is narrow enough,
    /// an array is strictly increasing, a bitmap has exactly one bit for
    /// each value of the width.
    pub open spec fn wf(&self) -> bool {
        &&& narrow::<Size>()
        &&& match self {
            Store::Array(vec) => increasing(vals(vec@)),
            Store::Bitmap(bits) => 64 * bits@.len() == Size::domain(),
        }
    }

    /// Whether two stores are of the same kind and have the same entries.
    pub open spec fn same_as(&self, other: &Self) -> bool {
        match (self, other) {
            (Store::Array(vec1), Store::Array(vec2)) => vec1@ == vec2@,
            (Store::Bitmap(bits1), Store::Bitmap(bits2)) => bits1@ == bits2@,
            _ => false,
        }
    }

    /// A valid store holds finitely many numbers, all of the width.
    pub proof fn lemma_view(&self)
        requires
            self.wf(),
        ensures
            self@.finite(),
            self@.len() <= Size::domain(),
            forall|x: int| self@.contains(x) ==> 0 <= x < Size::domain(),
            self matches Store::Array(vec) ==> self@.len() == vec@.len(),
            self matches Store::Bitmap(bits) ==> self@.len() == count_below(
                bits@,
                Size::domain(),
            ),
    {
        Size::lemma_domain();
        assert forall|x: int| self@.contains(x) implies 0 <= x < Size::domain() by {
            match self {
                Store::Array(vec) => {
                    let i = choose|i: int| 0 <= i < vals(vec@).len() && vals(vec@)[i] == x;
                    vec@[i].lemma_val(vec@[i]);
                },
                Store::Bitmap(bits) => {},
            }
        }
        match self {
            Store::Array(vec) => {
                lemma_increasing_len(vals(vec@));
            },
            Store::Bitmap(bits) => {
                lemma_bits_set_len(bits@);
            },
        }
        vstd::set_lib::lemma_int_range(0, Size::domain());
        vstd::set_lib::lemma_len_subset(self@, vstd::set_lib::set_int_range(0, Size::domain()));
    }

    /// Adds `index` to the store. Returns whether it was absent before.
    pub fn insert(&mut self, index: Size) -> (r: bool)
        requires
            old(self).wf(),
        ensures
            final(self).wf(),
            final(self)@ == old(self)@.insert(index.val()),
            r == !old(self)@.contains(index.val()),
            *final(self) is Array <==> *old(self) is Array,
    {
        match self {
            Store::Array(vec) => {
                match search(vec, index) {
                    Ok(at) => {
                        proof {
                            assert(vals(vec@)[at as int] == index.val());
                            assert(vals(vec@).to_set().insert(index.val()) =~= vals(
                                vec@,
                            ).to_set());
                        }
                        false
                    },
                    Err(at) => {
                        let ghost before = vec@;
                        vec.insert(at, index);
                        proof {
                            lemma_insert_at(before, at as int, index);
                        }
                        true
                    },
                }
            },
            Store::Bitmap(bits) => {
                let (key, bit) = bitmap_location(index);
                proof {
                    index.lemma_val(index);
                }
                let ghost before = bits@;
                let word: u64 = bits[key];
                let mask: u64 = 1u64 << bit;
                proof {
                    lemma_bit_place(before, key as int, bit as int);
                }
                if word & mask == 0 {
                    bits[key] = word | mask;
                    proof {
                        lemma_set_bit(before, bits@, index.val());
                    }
                    true
                } else {
                    proof {
                        assert(bits_set(before).insert(index.val()) =~= bits_set(before));
                    }
                    false
                }
            },
        }
    }

    /// Takes `index` out of the store. Returns whether it was present.
    pub fn remove(&mut self, index: Size) -> (r: bool)
        requires
            old(self).wf(),
        ensures
            final(self).wf(),
            final(self)@ == old(self)@.remove(index.val()),
            r == old(self)@.contains(index.val()),
            *final(self) is Array <==> *old(self) is Array,
    {
        match self {
            Store::Array(vec) => {
                match search(vec, index) {
                    Ok(at) => {
                        let ghost before = vec@;
                        vec.remove(at);
                        proof {
                            assert(vals(before)[at as int] == index.val());
                            lemma_remove_at(before, at as int);
                        }
                        true
                    },
                    Err(_) => {
                        proof {
                            assert(vals(vec@).to_set().remove(index.val()) =~= vals(
                                vec@,
                            ).to_set());
                        }
                        false
                    },
                }
            },
            Store::Bitmap(bits) => {
                let (key, bit) = bitmap_location(index);
                proof {
                    index.lemma_val(index);
                }
                let ghost before = bits@;
                let word: u64 = bits[key];
                let mask: u64 = 1u64 << bit;
                proof {
                    lemma_bit_place(before, key as int, bit as int);
                }
                if word & mask != 0 {
                    bits[key] = word & !mask;
                    proof {
                        lemma_clear_bit(before, bits@, index.val());
                    }
                    true
                } else {
                    proof {
                        assert(bits_set(before).remove(index.val()) =~= bits_set(before));
                    }
                    false
                }
            },
        }
    }

    /// Whether the store holds `index`.
    pub fn contains(&self, index: Size) -> (r: bool)
        requires
            self.wf(),
        ensures
            r == self@.contains(index.val()),
    {
        match self {
            Store::Array(vec) => {
                match search(vec, index) {
                    Ok(at) => {
                        proof {
                            assert(vals(vec@)[at as int] == index.val());
                        }
                        true
                    },
                    Err(_) => false,
                }
            },
            Store::Bitmap(bits) => {
                proof {
                    index.lemma_val(index);
                    lemma_bit_place(bits@, index.val() / 64, index.val() % 64);
                }
                bits[key(index)] & (1u64 << bit(index)) != 0
            },
        }
    }

    /// The number of values in the store.
    pub fn len(&self) -> (r: u64)
        requires
            self.wf(),
        ensures
            r == self@.len(),
    {
        proof {
            self.lemma_view();
            Size::lemma_domain();
        }
        match self {
            Store::Array(vec) => vec.len() as u64,
            Store::Bitmap(bits) => {
                let mut len: u64 = 0;
                let mut i: usize = 0;
                while i < bits.len()
                    invariant
                        0 <= i <= bits.len(),
                        64 * bits@.len() == Size::domain(),
                        Size::domain() <= 0x1_0000_0000,
                        len == count_below(bits@, 64 * i),
                        len <= 64 * i,
                    decreases bits.len() - i,
                {
                    let ones: u32 = bits[i].count_ones();
                    proof {
                        lemma_count_word(bits@, i as int, 64);
                        lemma_ones_bound(bits@[i as int], 64);
                    }
                    len = len + (ones as u64);
                    i = i + 1;
                }
                len
            },
        }
    }

    /// The smallest value of a store that is not empty.
    pub fn min(&self) -> (r: Size)
        requires
            self.wf(),
            self@.len() > 0,
        ensures
            self@.contains(r.val()),
            forall|x: int| self@.contains(x) ==> r.val() <= x,
    {
        proof {
            self.lemma_view();
            Size::lemma_domain();
        }
        match self {
            Store::Array(vec) => {
                proof {
                    let a = vals(vec@);
                    assert(a[0] == vec@[0].val());
                    assert(a.to_set().contains(a[0]));
                    assert forall|x: int| a.to_set().contains(x) implies a[0] <= x by {
                        let i = choose|i: int| 0 <= i < a.len() && a[i] == x;
                        if 0 < i {
                            assert(a[0] < a[i]);
                        }
                    }
                }
                vec[0]
            },
            Store::Bitmap(bits) => {
                let mut i: usize = 0;
                while i < bits.len() && bits[i] == 0
                    invariant
                        0 <= i <= bits.len(),
                        forall|x: int| bits_contain(bits@, x) ==> 64 * i <= x,
                    decreases bits.len() - i,
                {
                    proof {
                        lemma_zero_word(bits@[i as int]);
                        assert forall|x: int| bits_contain(bits@, x) implies 64 * (i + 1)
                            <= x by {
                            if x / 64 == i {
                                assert(!has_bit(bits@[i as int], (x % 64) as u64));
                            }
                        }
                    }
                    i = i + 1;
                }
                proof {
                    if i == bits.len() {
                        assert(self@ =~= Set::<int>::empty());
                    }
                    lemma_lowest_bit(bits@[i as int]);
                }
                let low: u32 = bits[i].trailing_zeros();
                let found: u64 = (i as u64) * 64 + (low as u64);
                proof {
                    lemma_bit_place(bits@, i as int, low as int);
                    assert forall|x: int| bits_contain(bits@, x) implies found <= x by {
                        if x / 64 == i {
                            assert(has_bit(bits@[i as int], (x % 64) as u64));
                        }
                    }
                }
                Size::from64(found)
            },
        }
    }

    /// The largest value of a store that is not empty.
    pub fn max(&self) -> (r: Size)
        requires
            self.wf(),
            self@.len() > 0,
        ensures
            self@.contains(r.val()),
            forall|x: int| self@.contains(x) ==> x <= r.val(),
    {
        proof {
            self.lemma_view();
            Size::lemma_domain();
        }
        match self {
            Store::Array(vec) => {
                proof {
                    let a = vals(vec@);
                    let last = a.len() - 1;
                    assert(a[last] == vec@[last].val());
                    assert(a.to_set().contains(a[last]));
                    assert forall|x: int| a.to_set().contains(x) implies x <= a[last] by {
                        let i = choose|i: int| 0 <= i < a.len() && a[i] == x;
                        if i < last {
                            assert(a[i] < a[last]);
                        }
                    }
                }
                vec[vec.len() - 1]
            },
            Store::Bitmap(bits) => {
                let mut i: usize = bits.len();
                while i > 0 && bits[i - 1] == 0
                    invariant
                        0 <= i <= bits.len(),
                        forall|x: int| bits_contain(bits@, x) ==> x < 64 * i,
                    decreases i,
                {
                    proof {
                        lemma_zero_word(bits@[i - 1]);
                        assert forall|x: int| bits_contain(bits@, x) implies x < 64 * (i - 1) by {
                            if x / 64 == i - 1 {
                                assert(!has_bit(bits@[i - 1], (x % 64) as u64));
                            }
                        }
                    }
                    i = i - 1;
                }
                proof {
                    if i == 0 {
                        assert(self@ =~= Set::<int>::empty());
                    }
                    lemma_highest_bit(bits@[i - 1]);
                }
                let high: u32 = 63 - bits[i - 1].leading_zeros();
                let found: u64 = ((i - 1) as u64) * 64 + (high as u64);
                proof {
                    lemma_bit_place(bits@, i - 1, high as int);
                    assert forall|x: int| bits_contain(bits@, x) implies x <= found by {
                        if x / 64 == i - 1 {
                            assert(has_bit(bits@[i - 1], (x % 64) as u64));
                        }
                    }
                }
                Size::from64(found)
            },
        }
    }

    /// The smallest value of the store that is no smaller than `from`.
    pub fn next_from(&self, from: Size) -> (r: Option<Size>)
        requires
            self.wf(),
        ensures
            is_next(self@, from.val(), val_of(r)),
    {
        proof {
            self.lemma_view();
            Size::lemma_domain();
            from.lemma_val(from);
        }
        match self {
            Store::Array(vec) => {
                let ghost a = vals(vec@);
                let at: usize = match search(vec, from) {
                    Ok(at) => at,
                    Err(at) => at,
                };
                proof {
                    assert forall|x: int| a.to_set().contains(x) && from.val() <= x implies at
                        < vec.len() && a[at as int] <= x by {
                        let i = choose|i: int| 0 <= i < a.len() && a[i] == x;
                        if i < at {
                            assert(a[i] == vec@[i].val());
                            if i < at - 1 {
                                assert(a[i] < a[at - 1]);
                            }
                            assert(a[at - 1] == vec@[at - 1].val());
                        } else if at < i {
                            assert(a[at as int] < a[i]);
                        }
                    }
                }
                if at < vec.len() {
                    proof {
                        assert(a[at as int] == vec@[at as int].val());
                        assert(a.to_set().contains(a[at as int]));
                    }
                    Some(vec[at])
                } else {
                    None
                }
            },
            Store::Bitmap(bits) => {
                let (key, bit) = bitmap_location(from);
                let word: u64 = bits[key];
                let first: u64 = word >> bit;
                if first != 0 {
                    let low: u32 = first.trailing_zeros();
                    proof {
                        lemma_lowest_bit(first);
                        lemma_bit_ops(word, 0, bit as u64, low as u64);
                    }
                    let found: u64 = (key as u64) * 64 + (bit as u64) + (low as u64);
                    proof {
                        lemma_bit_place(bits@, key as int, bit + low);
                        assert forall|x: int| bits_contain(bits@, x) && from.val() <= x implies found
                            <= x by {
                            if x / 64 == key {
                                let j = (x % 64 - bit) as u64;
                                lemma_bit_ops(word, 0, bit as u64, j);
                                assert(has_bit(first, j));
                            }
                        }
                    }
                    Some(Size::from64(found))
                } else {
                    proof {
                        lemma_zero_word(first);
                        assert forall|x: int| bits_contain(bits@, x) && from.val() <= x implies 64
                            * (key + 1) <= x by {
                            if x / 64 == key {
                                let j = (x % 64 - bit) as u64;
                                lemma_bit_ops(word, 0, bit as u64, j);
                                assert(!has_bit(first, j));
                            }
                        }
                    }
                    let mut i: usize = key + 1;
                    while i < bits.len() && bits[i] == 0
                        invariant
                            key < i <= bits.len(),
                            forall|x: int|
                                bits_contain(bits@, x) && from.val() <= x ==> 64 * i <= x,
                        decreases bits.len() - i,
                    {
                        proof {
                            lemma_zero_word(bits@[i as int]);
                            assert forall|x: int|
                                bits_contain(bits@, x) && from.val() <= x implies 64 * (i + 1)
                                <= x by {
                                if x / 64 == i {
                                    assert(!has_bit(bits@[i as int], (x % 64) as u64));
                                }
                            }
                        }
                        i = i + 1;
                    }
                    if i < bits.len() {
                        proof {
                            lemma_lowest_bit(bits@[i as int]);
                        }
                        let low: u32 = bits[i].trailing_zeros();
                        let found: u64 = (i as u64) * 64 + (low as u64);
                        proof {
                            lemma_bit_place(bits@, i as int, low as int);
                            assert forall|x: int|
                                bits_contain(bits@, x) && from.val() <= x implies found <= x by {
                                if x / 64 == i {
                                    assert(has_bit(bits@[i as int], (x % 64) as u64));
                                }
                            }
                        }
                        Some(Size::from64(found))
                    } else {
                        None
                    }
                }
            },
        }
    }

    /// The same values as a sorted array. For a store that is a bitmap.
    pub fn to_array(&self) -> (r: Self)
        requires
            self.wf(),
            *self is Bitmap,
        ensures
            r.wf(),
            r is Array,
            r@ == self@,
    {
        match self {
            Store::Array(vec) => Store::Array(copy_values(vec)),
            Store::Bitmap(bits) => Store::Array(bitmap_values(bits)),
        }
    }

    /// The same values as a dense bitmap. For a store that is an array.
    pub fn to_bitmap(&self) -> (r: Self)
        requires
            self.wf(),
            *self is Array,
        ensures
            r.wf(),
            r is Bitmap,
            r@ == self@,
    {
        match self {
            Store::Array(vec) => Store::Bitmap(array_bits(vec)),
            Store::Bitmap(bits) => Store::Bitmap(copy_values(bits)),
        }
    }

    /// The values of the store in increasing order.
    pub fn iter(&self) -> (r: Vec<Size>)
        requires
            self.wf(),
        ensures
            increasing(vals(r@)),
            vals(r@).to_set() == self@,
    {
        match self {
            Store::Array(vec) => copy_values(vec),
            Store::Bitmap(bits) => bitmap_values(bits),
        }
    }

    /// Whether the two stores have no value in common.
    pub fn is_disjoint(&self, other: &Self) -> (r: bool)
        requires
            self.wf(),
            other.wf(),
        ensures
            r == self@.disjoint(other@),
    {
        match (self, other) {
            (Store::Array(vec1), Store::Array(vec2)) => arrays_disjoint(vec1, vec2),
            (Store::Bitmap(bits1), Store::Bitmap(bits2)) => words_disjoint(bits1, bits2),
            (Store::Array(vec), Store::Bitmap(_)) => array_disjoint_from(vec, other),
            (Store::Bitmap(_), Store::Array(vec)) => array_disjoint_from(vec, self),
        }
    }

    /// Whether every value of this store is in `other`, as far as the
    /// representations allow the question: a bitmap is never reported to
    /// be a subset of an array.
    pub fn is_subset(&self, other: &Self) -> (r: bool)
        requires
            self.wf(),
            other.wf(),
        ensures
            r == (self@.subset_of(other@) && !(*self is Bitmap && *other is Array)),
    {
        match (self, other) {
            (Store::Array(vec1), Store::Array(vec2)) => array_within_array(vec1, vec2),
            (Store::Bitmap(bits1), Store::Bitmap(bits2)) => words_within(bits1, bits2),
            (Store::Array(vec), Store::Bitmap(_)) => array_within(vec, other),
            (Store::Bitmap(_), Store::Array(_)) => false,
        }
    }

    /// Adds the values of `other` to this store. The result is an array
    /// only where both were arrays.
    pub fn union_with(&mut self, other: &Self)
        requires
            old(self).wf(),
            other.wf(),
        ensures
            final(self).wf(),
            final(self)@ == old(self)@.union(other@),
            *final(self) is Array <==> *old(self) is Array && *other is Array,
    {
        match other {
            Store::Array(vec2) => {
                let ghost b = vals(vec2@);
                let mut i: usize = 0;
                proof {
                    assert(self@ =~= old(self)@.union(b.subrange(0, 0).to_set()));
                }
                while i < vec2.len()
                    invariant
                        0 <= i <= vec2.len(),
                        b == vals(vec2@),
                        self.wf(),
                        self@ == old(self)@.union(b.subrange(0, i as int).to_set()),
                        *self is Array <==> *old(self) is Array,
                    decreases vec2.len() - i,
                {
                    let index: Size = vec2[i];
                    self.insert(index);
                    proof {
                        assert(b[i as int] == index.val());
                        assert(b.subrange(0, i + 1) =~= b.subrange(0, i as int).push(
                            index.val(),
                        ));
                        lemma_push_set(b.subrange(0, i as int), index.val());
                        assert(self@ =~= old(self)@.union(b.subrange(0, i + 1).to_set()));
                    }
                    i = i + 1;
                }
                proof {
                    assert(b.subrange(0, b.len() as int) =~= b);
                }
            },
            Store::Bitmap(bits2) => {
                match self {
                    Store::Bitmap(bits1) => {
                        combine_words(SetOp::Union, bits1, bits2);
                    },
                    Store::Array(vec1) => {
                        let mut bits1 = array_bits(vec1);
                        combine_words(SetOp::Union, &mut bits1, bits2);
                        *self = Store::Bitmap(bits1);
                    },
                }
            },
        }
    }

    /// Keeps the values of this store that are in `other` too. The result
    /// is a bitmap only where both were bitmaps.
    pub fn intersect_with(&mut self, other: &Self)
        requires
            old(self).wf(),
            other.wf(),
        ensures
            final(self).wf(),
            final(self)@ == old(self)@.intersect(other@),
            *final(self) is Bitmap <==> *old(self) is Bitmap && *other is Bitmap,
    {
        match other {
            Store::Array(vec2) => {
                match self {
                    Store::Array(vec1) => {
                        intersect_arrays(vec1, vec2);
                    },
                    Store::Bitmap(_) => {
                        let mut kept = copy_values(vec2);
                        filter_array(&mut kept, self, true);
                        proof {
                            assert(other@.intersect(self@) =~= self@.intersect(other@));
                        }
                        *self = Store::Array(kept);
                    },
                }
            },
            Store::Bitmap(bits2) => {
                match self {
                    Store::Array(vec1) => {
                        filter_array(vec1, other, true);
                    },
                    Store::Bitmap(bits1) => {
                        combine_words(SetOp::Intersection, bits1, bits2);
                    },
                }
            },
        }
    }

    /// Takes the values of `other` out of this store. The result is of the
    /// kind that this store was.
    pub fn difference_with(&mut self, other: &Self)
        requires
            old(self).wf(),
            other.wf(),
        ensures
            final(self).wf(),
            final(self)@ == old(self)@.difference(other@),
            *final(self) is Array <==> *old(self) is Array,
    {
        match other {
            Store::Array(vec2) => {
                match self {
                    Store::Array(vec1) => {
                        difference_arrays(vec1, vec2);
                    },
                    Store::Bitmap(_) => {
                        let ghost b = vals(vec2@);
                        let mut i: usize = 0;
                        proof {
                            assert(self@ =~= old(self)@.difference(b.subrange(0, 0).to_set()));
                        }
                        while i < vec2.len()
                            invariant
                                0 <= i <= vec2.len(),
                                b == vals(vec2@),
                                self.wf(),
                                self@ == old(self)@.difference(b.subrange(0, i as int).to_set()),
                                *self is Bitmap,
                            decreases vec2.len() - i,
                        {
                            let index: Size = vec2[i];
                            self.remove(index);
                            proof {
                                assert(b[i as int] == index.val());
                                assert(b.subrange(0, i + 1) =~= b.subrange(0, i as int).push(
                                    index.val(),
                                ));
                                lemma_push_set(b.subrange(0, i as int), index.val());
                                assert(self@ =~= old(self)@.difference(
                                    b.subrange(0, i + 1).to_set(),
                                ));
                            }
                            i = i + 1;
                        }
                        proof {
                            assert(b.subrange(0, b.len() as int) =~= b);
                        }
                    },
                }
            },
            Store::Bitmap(bits2) => {
                match self {
                    Store::Array(vec1) => {
                        filter_array(vec1, other, false);
                    },
                    Store::Bitmap(bits1) => {
                        combine_words(SetOp::Difference, bits1, bits2);
                    },
                }
            },
        }
    }

    /// Leaves in this store the values that are in exactly one of it and
    /// `other`. The result is an array only where both were arrays.
    pub fn symmetric_difference_with(&mut self, other: &Self)
        requires
            old(self).wf(),
            other.wf(),
        ensures
            final(self).wf(),
            final(self)@ == symmetric_difference(old(self)@, other@),
            *final(self) is Array <==> *old(self) is Array && *other is Array,
    {
        match other {
            Store::Array(vec2) => {
                match self {
                    Store::Array(vec1) => {
                        symmetric_difference_arrays(vec1, vec2);
                    },
                    Store::Bitmap(_) => {
                        self.toggle_all(vec2);
                    },
                }
            },
            Store::Bitmap(bits2) => {
                match self {
                    Store::Array(vec1) => {
                        let mut flipped = Store::Bitmap(copy_values(bits2));
                        flipped.toggle_all(vec1);
                        proof {
                            assert(symmetric_difference(other@, self@) =~= symmetric_difference(
                                self@,
                                other@,
                            ));
                        }
                        *self = flipped;
                    },
                    Store::Bitmap(bits1) => {
                        combine_words(SetOp::SymmetricDifference, bits1, bits2);
                    },
                }
            },
        }
    }

    /// Takes each value of the sorted array `vec` out of this store where
    /// it is present and adds it where it is not.
    fn toggle_all(&mut self, vec: &Vec<Size>)
        requires
            old(self).wf(),
            increasing(vals(vec@)),
        ensures
            final(self).wf(),
            final(self)@ == symmetric_difference(old(self)@, vals(vec@).to_set()),
            *final(self) is Array <==> *old(self) is Array,
    {
        let ghost b = vals(vec@);
        let mut i: usize = 0;
        proof {
            assert(self@ =~= symmetric_difference(old(self)@, b.subrange(0, 0).to_set()));
        }
        while i < vec.len()
            invariant
                0 <= i <= vec.len(),
                b == vals(vec@),
                increasing(b),
                self.wf(),
                self@ == symmetric_difference(old(self)@, b.subrange(0, i as int).to_set()),
                *self is Array <==> *old(self) is Array,
            decreases vec.len() - i,
        {
            let index: Size = vec[i];
            proof {
                assert(b[i as int] == index.val());
                let seen = b.subrange(0, i as int);
                assert(b.subrange(0, i + 1) =~= seen.push(index.val()));
                lemma_push_set(seen, index.val());
                assert(!seen.contains(index.val())) by {
                    if seen.contains(index.val()) {
                        let j = choose|j: int| 0 <= j < seen.len() && seen[j] == index.val();
                        assert(b[j] < b[i as int]);
                    }
                }
            }
            if self.contains(index) {
                self.remove(index);
            } else {
                self.insert(index);
            }
            proof {
                assert(self@ =~= symmetric_difference(
                    old(self)@,
                    b.subrange(0, i + 1).to_set(),
                ));
            }
            i = i + 1;
        }
        proof {
            assert(b.subrange(0, b.len() as int) =~= b);
        }
    }
}

impl<Size: ExtInt> Clone for Store<Size> {
    /// A store of the same kind with the same entries.
    fn clone(&self) -> (r: Self)
        ensures
            r.same_as(self),
    {
        match self {
            Store::Array(vec) => Store::Array(copy_values(vec)),
            Store::Bitmap(bits) => Store::Bitmap(copy_values(bits)),
        }
    }
}

/// The numbers whose bit is set in a bitmap, in increasing order.
pub fn bitmap_values<Size: ExtInt>(bits: &Vec<u64>) -> (r: Vec<Size>)
    requires
        narrow::<Size>(),
        64 * bits@.len() == Size::domain(),
    ensures
        increasing(vals(r@)),
        vals(r@).to_set() == bits_set(bits@),
{
    proof {
        Size::lemma_domain();
    }
    let mut vec: Vec<Size> = Vec::new();
    let mut key: usize = 0;
    proof {
        assert(vals(vec@).to_set() =~= bits_set_below(bits@, 0));
    }
    while key < bits.len()
        invariant
            0 <= key <= bits.len(),
            64 * bits@.len() == Size::domain(),
            Size::domain() <= 0x1_0000_0000,
            increasing(vals(vec@)),
            vals(vec@).to_set() =~= bits_set_below(bits@, 64 * key),
        decreases bits.len() - key,
    {
        let val: u64 = bits[key];
        if val != 0 {
            let mut bit: usize = 0;
            while bit < 64
                invariant
                    0 <= bit <= 64,
                    0 <= key < bits.len(),
                    val == bits@[key as int],
                    64 * bits@.len() == Size::domain(),
                    Size::domain() <= 0x1_0000_0000,
                    increasing(vals(vec@)),
                    vals(vec@).to_set() =~= bits_set_below(bits@, 64 * key + bit),
                decreases 64 - bit,
            {
                proof {
                    lemma_bit_place(bits@, key as int, bit as int);
                }
                if (val & (1u64 << bit)) != 0 {
                    let found: u64 = (key as u64) * 64 + (bit as u64);
                    let ghost before = vec@;
                    let entry: Size = Size::from64(found);
                    vec.push(entry);
                    proof {
                        lemma_push(before, entry);
                        assert(bits_set_below(bits@, found + 1) =~= bits_set_below(
                            bits@,
                            found as int,
                        ).insert(found as int));
                    }
                } else {
                    proof {
                        assert(bits_set_below(bits@, 64 * key + bit + 1) =~= bits_set_below(
                            bits@,
                            64 * key + bit,
                        ));
                    }
                }
                bit = bit + 1;
            }
        } else {
            proof {
                lemma_zero_word(val);
                let shorter = bits_set_below(bits@, 64 * key);
                let longer = bits_set_below(bits@, 64 * (key + 1));
                assert forall|x: int| longer.contains(x) implies shorter.contains(x) by {
                    if x / 64 == key {
                        assert(!has_bit(val, (x % 64) as u64));
                    }
                }
                assert(longer =~= shorter);
            }
        }
        key = key + 1;
    }
    proof {
        assert(bits_set_below(bits@, 64 * (bits@.len() as int)) =~= bits_set(bits@));
    }
    vec
}

/// The bitmap of a width that has a bit set for each value of a sorted
/// array, and no other.
pub fn array_bits<Size: ExtInt>(vec: &Vec<Size>) -> (r: Vec<u64>)
    requires
        narrow::<Size>(),
    ensures
        64 * r@.len() == Size::domain(),
        bits_set(r@) == vals(vec@).to_set(),
{
    proof {
        Size::lemma_domain();
    }
    let count: usize = (Size::max_value().to64() / 64 + 1) as usize;
    let mut bits: Vec<u64> = vec![0u64; count];
    proof {
        assert forall|x: int| !bits_contain(bits@, x) by {
            if 0 <= x < 64 * bits@.len() {
                lemma_bit_ops(0, 0, 0, (x % 64) as u64);
            }
        }
        assert(bits_set(bits@) =~= vals(vec@.subrange(0, 0)).to_set());
    }
    let mut i: usize = 0;
    while i < vec.len()
        invariant
            0 <= i <= vec.len(),
            narrow::<Size>(),
            64 * bits@.len() == Size::domain(),
            bits_set(bits@) =~= vals(vec@.subrange(0, i as int)).to_set(),
        decreases vec.len() - i,
    {
        let index: Size = vec[i];
        proof {
            index.lemma_val(index);
        }
        let (key, bit) = bitmap_location(index);
        let ghost before = bits@;
        let word: u64 = bits[key];
        bits[key] = word | (1u64 << bit);
        proof {
            lemma_set_bit(before, bits@, index.val());
            let shorter = vals(vec@.subrange(0, i as int));
            let longer = vals(vec@.subrange(0, i + 1));
            assert(longer =~= shorter.push(index.val()));
            lemma_push_set(shorter, index.val());
        }
        i = i + 1;
    }
    proof {
        assert(vec@.subrange(0, vec@.len() as int) =~= vec@);
    }
    bits
}

/// Whether no value of a sorted array is in `store`.
fn array_disjoint_from<Size: ExtInt>(vec: &Vec<Size>, store: &Store<Size>) -> (r: bool)
    requires
        store.wf(),
    ensures
        r == vals(vec@).to_set().disjoint(store@),
        r == store@.disjoint(vals(vec@).to_set()),
{
    let ghost a = vals(vec@);
    let mut i: usize = 0;
    while i < vec.len()
        invariant
            0 <= i <= vec.len(),
            a == vals(vec@),
            store.wf(),
            forall|m: int| 0 <= m < i ==> !store@.contains(#[trigger] a[m]),
        decreases vec.len() - i,
    {
        if store.contains(vec[i]) {
            proof {
                assert(a[i as int] == vec@[i as int].val());
                assert(a.to_set().contains(a[i as int]));
            }
            return false;
        }
        i = i + 1;
    }
    proof {
        assert forall|x: int| !(a.to_set().contains(x) && store@.contains(x)) by {
            if a.contains(x) {
                let m = choose|m: int| 0 <= m < a.len() && a[m] == x;
                assert(!store@.contains(a[m]));
            }
        }
    }
    true
}

/// Whether every value of a sorted array is in `store`.
fn array_within<Size: ExtInt>(vec: &Vec<Size>, store: &Store<Size>) -> (r: bool)
    requires
        store.wf(),
    ensures
        r == vals(vec@).to_set().subset_of(store@),
{
    let ghost a = vals(vec@);
    let mut i: usize = 0;
    while i < vec.len()
        invariant
            0 <= i <= vec.len(),
            a == vals(vec@),
            store.wf(),
            forall|m: int| 0 <= m < i ==> store@.contains(#[trigger] a[m]),
        decreases vec.len() - i,
    {
        if !store.contains(vec[i]) {
            proof {
                assert(a[i as int] == vec@[i as int].val());
                assert(a.to_set().contains(a[i as int]));
            }
            return false;
        }
        i = i + 1;
    }
    proof {
        assert forall|x: int| a.to_set().contains(x) implies store@.contains(x) by {
            let m = choose|m: int| 0 <= m < a.len() && a[m] == x;
            assert(store@.contains(a[m]));
        }
    }
    true
}

/// Keeps in the sorted array `vec` the values that are in `store`, where
/// `keep` is set, or those that are not, where it is not. The array is
/// walked from its end, so that a removal moves no value that is still to
/// be looked at.
fn filter_array<Size: ExtInt>(vec: &mut Vec<Size>, store: &Store<Size>, keep: bool)
    requires
        increasing(vals(old(vec)@)),
        store.wf(),
    ensures
        increasing(vals(final(vec)@)),
        keep ==> vals(final(vec)@).to_set() == vals(old(vec)@).to_set().intersect(store@),
        !keep ==> vals(final(vec)@).to_set() == vals(old(vec)@).to_set().difference(store@),
{
    let ghost a = vals(vec@);
    let mut i: usize = vec.len();
    while i > 0
        invariant
            store.wf(),
            increasing(a),
            increasing(vals(vec@)),
            0 <= i <= vec.len() <= a.len(),
            forall|p: int| 0 <= p < i ==> #[trigger] vals(vec@)[p] == a[p],
            forall|p: int|
                i <= p < vec.len() ==> a.contains(#[trigger] vals(vec@)[p]) && store@.contains(
                    vals(vec@)[p],
                ) == keep,
            forall|m: int|
                i <= m < a.len() && store@.contains(#[trigger] a[m]) == keep ==> exists|p: int|
                    i <= p < vec.len() && #[trigger] vals(vec@)[p] == a[m],
        decreases i,
    {
        i = i - 1;
        let ghost c = vals(vec@);
        let ghost before = vec@;
        proof {
            assert(c[i as int] == before[i as int].val());
            assert(c[i as int] == a[i as int]);
        }
        if store.contains(vec[i]) != keep {
            vec.remove(i);
            proof {
                lemma_remove_at(before, i as int);
                lemma_removed(c, vals(vec@), i as int);
                assert forall|m: int|
                    i <= m < a.len() && store@.contains(#[trigger] a[m]) == keep implies exists|
                    p: int,
                |
                    i <= p < vec.len() && #[trigger] vals(vec@)[p] == a[m] by {
                    let q = choose|q: int| i + 1 <= q < c.len() && c[q] == a[m];
                    assert(vals(vec@)[q - 1] == c[q]);
                }
            }
        } else {
            proof {
                assert(a.contains(c[i as int]));
            }
        }
    }
    proof {
        let c = vals(vec@);
        let want = if keep {
            a.to_set().intersect(store@)
        } else {
            a.to_set().difference(store@)
        };
        assert forall|x: int| c.to_set().contains(x) <==> want.contains(x) by {
            if c.contains(x) {
                let p = choose|p: int| 0 <= p < c.len() && c[p] == x;
                assert(a.contains(c[p]) && store@.contains(c[p]) == keep);
            }
            if a.contains(x) && store@.contains(x) == keep {
                let m = choose|m: int| 0 <= m < a.len() && a[m] == x;
                assert(store@.contains(a[m]) == keep);
                let p = choose|p: int| 0 <= p < c.len() && c[p] == a[m];
                assert(c[p] == x);
            }
        }
        assert(c.to_set() =~= want);
    }
}

/// Whatever their kinds, two valid stores with the same numbers hold the
/// same values and hand them out in the same order: `s_values` and
/// `t_values` stand for what `iter` returns for the one and for the other.
pub proof fn lemma_kind_is_hidden<Size: ExtInt>(
    s: Store<Size>,
    t: Store<Size>,
    s_values: Seq<Size>,
    t_values: Seq<Size>,
)
    requires
        s.wf(),
        t.wf(),
        s@ == t@,
        increasing(vals(s_values)),
        vals(s_values).to_set() == s@,
        increasing(vals(t_values)),
        vals(t_values).to_set() == t@,
    ensures
        forall|index: Size| s@.contains(index.val()) == t@.contains(index.val()),
        s_values == t_values,
{
    lemma_one_order(vals(s_values), vals(t_values));
    assert(s_values.len() == vals(s_values).len());
    assert(t_values.len() == vals(t_values).len());
    assert forall|i: int| 0 <= i < s_values.len() implies s_values[i] == t_values[i] by {
        assert(vals(s_values)[i] == s_values[i].val());
        assert(vals(t_values)[i] == t_values[i].val());
        s_values[i].lemma_val(t_values[i]);
    }
    assert(s_values =~= t_values);
}

} // verus!

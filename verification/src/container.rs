//! The values that share one key.

use vstd::prelude::*;
use crate::bits::{bits_set, count_below};
use crate::ops::{is_next, symmetric_difference, SetOp};
use crate::sorted::{increasing, vals};
use crate::store::{narrow, val_of, Store};
use crate::util::ExtInt;

verus! {

/// What the decoding of a record that does not hold a valid container
/// ends with.
#[derive(Debug, PartialEq, Eq, Clone, Copy)]
pub struct Malformed;

/// The values that share one key: the key, their number, and a store that
/// is an array while they are few and a bitmap once they are many.
#[derive(Debug, PartialEq)]
pub struct Container<Size: ExtInt> {
    key: Size,
    len: u64,
    store: Store<Size>,
}

/// The greatest number of values that a container keeps in an array: a
/// sixteenth of the values of the width.
pub open spec fn limit<Size: ExtInt>() -> int {
    Size::domain() / 16
}

/// A sixteenth of a whole number of 64-bit words' worth is one more than
/// a sixteenth of one less, rounded down.
pub proof fn lemma_sixteenth(d: int)
    requires
        d % 64 == 0,
    ensures
        (d - 1) / 16 + 1 == d / 16,
{
}

/// The greatest number of values that a container keeps in an array.
pub fn array_limit<Size: ExtInt>() -> (r: u64)
    ensures
        r == limit::<Size>(),
{
    proof {
        Size::lemma_domain();
        lemma_sixteenth(Size::domain());
    }
    let top: u64 = Size::max_value().to64();
    top / 16 + 1
}

/// The numbers of a sequence of words.
pub open spec fn words_as_ints(s: Seq<u64>) -> Seq<int> {
    s.map_values(|w: u64| w as int)
}

/// The values of an array as 64-bit words.
pub open spec fn vals_as_words<Size: ExtInt>(s: Seq<Size>) -> Seq<u64> {
    s.map_values(|e: Size| e.val() as u64)
}

/// Whether the words of `bits` from `next` on begin with the record of a
/// valid container of this width: four words of header, namely the key,
/// the number of values, 0 for an array or 1 for a bitmap, and the number
/// of payload words; then the payload. An array's payload holds its values
/// in increasing order, no more than an array may hold; its number of
/// values is the number of payload words, whatever the header says. A
/// bitmap's payload holds the words of the bitmap, and its header the
/// number of bits set in them, which is more than an array may hold.
pub open spec fn valid_record<Size: ExtInt>(bits: Seq<u64>, next: int) -> bool {
    &&& 0 <= next
    &&& next + 4 <= bits.len()
    &&& next + 4 + bits[next + 3] <= bits.len()
    &&& bits[next] < Size::domain()
    &&& {
        let payload = bits.subrange(next + 4, next + 4 + bits[next + 3]);
        if bits[next + 2] == 0 {
            &&& payload.len() <= limit::<Size>()
            &&& increasing(words_as_ints(payload))
            &&& forall|i: int| 0 <= i < payload.len() ==> #[trigger] payload[i] < Size::domain()
        } else {
            &&& bits[next + 2] == 1
            &&& 64 * payload.len() == Size::domain()
            &&& bits[next + 1] == count_below(payload, Size::domain())
            &&& bits[next + 1] > limit::<Size>()
        }
    }
}

/// The low halves that the record that begins at `next` holds.
pub open spec fn record_set(bits: Seq<u64>, next: int) -> Set<int> {
    let payload = bits.subrange(next + 4, next + 4 + bits[next + 3]);
    if bits[next + 2] == 0 {
        words_as_ints(payload).to_set()
    } else {
        bits_set(payload)
    }
}

/// The number of words of the record that begins at `next`.
pub open spec fn record_len(bits: Seq<u64>, next: int) -> int {
    4 + bits[next + 3]
}

impl<Size: ExtInt> View for Container<Size> {
    type V = Set<int>;

    /// The set of numbers that the container holds.
    open spec fn view(&self) -> Set<int> {
        self.spec_store()@
    }
}

impl<Size: ExtInt> Container<Size> {
    /// The key of the container.
    pub closed spec fn spec_key(&self) -> Size {
        self.key
    }

    /// The number of values that the container has on record.
    pub closed spec fn spec_len(&self) -> u64 {
        self.len
    }

    /// The store of the container.
    pub closed spec fn spec_store(&self) -> Store<Size> {
        self.store
    }

    /// Whether the container is in a valid state: its store is, it has the
    /// number of its values on record, and its store is an array exactly
    /// while they are no more than an array may hold.
    pub open spec fn wf(&self) -> bool {
        &&& self.spec_store().wf()
        &&& self.spec_len() == self@.len()
        &&& self.spec_store() is Array <==> self.spec_len() <= limit::<Size>()
    }

    /// Whether two containers have the same key, the same number on record
    /// and stores of the same kind with the same entries.
    pub open spec fn same_as(&self, other: &Self) -> bool {
        &&& self.spec_key() == other.spec_key()
        &&& self.spec_len() == other.spec_len()
        &&& self.spec_store().same_as(&other.spec_store())
    }

    /// The record of the container: its key, the number of its values, 0
    /// for an array or 1 for a bitmap, the number of payload words, and
    /// the payload, which is the values of an array or the words of a
    /// bitmap.
    pub open spec fn record(&self) -> Seq<u64> {
        match self.spec_store() {
            Store::Array(vec) => seq![
                self.spec_key().val() as u64,
                self.spec_len(),
                0u64,
                vec@.len() as u64,
            ] + vals_as_words(vec@),
            Store::Bitmap(bits) => seq![
                self.spec_key().val() as u64,
                self.spec_len(),
                1u64,
                bits@.len() as u64,
            ] + bits@,
        }
    }

    /// A valid container holds finitely many numbers, all of the width.
    pub proof fn lemma_view(&self)
        requires
            self.wf(),
        ensures
            self@.finite(),
            self@.len() <= Size::domain(),
            forall|x: int| self@.contains(x) ==> 0 <= x < Size::domain(),
    {
        self.spec_store().lemma_view();
    }

    /// Wherever the record of a valid container stands among other words,
    /// a valid record begins there, of the length of the container's
    /// record, with its key and with its values.
    pub proof fn lemma_record(&self, pre: Seq<u64>, post: Seq<u64>)
        requires
            self.wf(),
        ensures
            valid_record::<Size>(pre + self.record() + post, pre.len() as int),
            record_len(pre + self.record() + post, pre.len() as int) == self.record().len(),
            (pre + self.record() + post)[pre.len() as int] == self.spec_key().val(),
            record_set(pre + self.record() + post, pre.len() as int) == self@,
    {
        Size::lemma_domain();
        self.spec_key().lemma_val(self.spec_key());
        self.spec_store().lemma_view();
        let rec = self.record();
        let bits = pre + rec + post;
        let next = pre.len() as int;
        assert forall|i: int| 0 <= i < rec.len() implies bits[next + i] == rec[i] by {}
        assert(bits[next] == rec[0]);
        assert(bits[next + 1] == rec[1]);
        assert(bits[next + 2] == rec[2]);
        assert(bits[next + 3] == rec[3]);
        let payload = bits.subrange(next + 4, next + 4 + bits[next + 3]);
        match self.spec_store() {
            Store::Array(vec) => {
                assert(payload =~= vals_as_words(vec@));
                assert forall|i: int| 0 <= i < vec@.len() implies 0 <= (#[trigger] vec@[i]).val()
                    < Size::domain() by {
                    vec@[i].lemma_val(vec@[i]);
                }
                assert(words_as_ints(payload) =~= vals(vec@));
            },
            Store::Bitmap(words) => {
                assert(payload =~= words@);
            },
        }
    }

    /// A valid container keeps its values in an array exactly while they
    /// are no more than an array may hold, whatever was done to it.
    pub proof fn lemma_threshold(&self)
        requires
            self.wf(),
        ensures
            self.spec_store() is Array <==> self@.len() <= limit::<Size>(),
            self.spec_store() is Bitmap <==> self@.len() > limit::<Size>(),
    {
    }

    /// A container without values for `key`.
    pub fn new(key: Size) -> (r: Self)
        requires
            narrow::<Size>(),
        ensures
            r.wf(),
            r.spec_key() == key,
            r@ == Set::<int>::empty(),
    {
        let r = Container { key: key, len: 0, store: Store::Array(Vec::new()) };
        proof {
            Size::lemma_domain();
            assert(r@ =~= Set::<int>::empty());
        }
        r
    }

    /// The key of the container.
    #[verifier::when_used_as_spec(spec_key)]
    pub fn key(&self) -> (r: Size)
        ensures
            r == self.spec_key(),
    {
        self.key
    }

    /// The number of values in the container.
    pub fn len(&self) -> (r: u64)
        requires
            self.wf(),
        ensures
            r == self@.len(),
    {
        self.len
    }

    /// Adds `index` to the container. Returns whether it was absent
    /// before.
    pub fn insert(&mut self, index: Size) -> (r: bool)
        requires
            old(self).wf(),
        ensures
            final(self).wf(),
            final(self).spec_key() == old(self).spec_key(),
            final(self)@ == old(self)@.insert(index.val()),
            r == !old(self)@.contains(index.val()),
    {
        proof {
            self.store.lemma_view();
            index.lemma_val(index);
            Size::lemma_domain();
        }
        if self.store.insert(index) {
            proof {
                self.store.lemma_view();
            }
            self.len = self.len + 1;
            self.ensure_correct_store();
            true
        } else {
            proof {
                assert(old(self)@.insert(index.val()) =~= old(self)@);
            }
            false
        }
    }

    /// Takes `index` out of the container. Returns whether it was present.
    pub fn remove(&mut self, index: Size) -> (r: bool)
        requires
            old(self).wf(),
        ensures
            final(self).wf(),
            final(self).spec_key() == old(self).spec_key(),
            final(self)@ == old(self)@.remove(index.val()),
            r == old(self)@.contains(index.val()),
    {
        proof {
            self.store.lemma_view();
        }
        if self.store.remove(index) {
            self.len = self.len - 1;
            self.ensure_correct_store();
            true
        } else {
            proof {
                assert(old(self)@.remove(index.val()) =~= old(self)@);
            }
            false
        }
    }

    /// Whether the container holds `index`.
    pub fn contains(&self, index: Size) -> (r: bool)
        requires
            self.wf(),
        ensures
            r == self@.contains(index.val()),
    {
        self.store.contains(index)
    }

    /// The values of the container in increasing order.
    pub fn iter(&self) -> (r: Vec<Size>)
        requires
            self.wf(),
        ensures
            increasing(vals(r@)),
            vals(r@).to_set() == self@,
    {
        self.store.iter()
    }

    /// Whether the two containers have no value in common.
    pub fn is_disjoint(&self, other: &Self) -> (r: bool)
        requires
            self.wf(),
            other.wf(),
        ensures
            r == self@.disjoint(other@),
    {
        self.store.is_disjoint(&other.store)
    }

    /// Whether every value of this container is in `other`. A container
    /// with more values than `other` is not looked through.
    pub fn is_subset(&self, other: &Self) -> (r: bool)
        requires
            self.wf(),
            other.wf(),
        ensures
            r == self@.subset_of(other@),
            self@.len() > other@.len() ==> !r,
    {
        proof {
            self.lemma_view();
            other.lemma_view();
            if self@.subset_of(other@) {
                vstd::set_lib::lemma_len_subset(self@, other@);
            }
        }
        if self.len > other.len {
            false
        } else {
            self.store.is_subset(&other.store)
        }
    }

    /// Adds the values of `other` to this container.
    pub fn union_with(&mut self, other: &Self)
        requires
            old(self).wf(),
            other.wf(),
        ensures
            final(self).wf(),
            final(self).spec_key() == old(self).spec_key(),
            final(self)@ == old(self)@.union(other@),
    {
        self.store.union_with(&other.store);
        self.len = self.store.len();
        self.ensure_correct_store();
    }

    /// Keeps the values of this container that are in `other` too.
    pub fn intersect_with(&mut self, other: &Self)
        requires
            old(self).wf(),
            other.wf(),
        ensures
            final(self).wf(),
            final(self).spec_key() == old(self).spec_key(),
            final(self)@ == old(self)@.intersect(other@),
    {
        self.store.intersect_with(&other.store);
        self.len = self.store.len();
        self.ensure_correct_store();
    }

    /// Takes the values of `other` out of this container.
    pub fn difference_with(&mut self, other: &Self)
        requires
            old(self).wf(),
            other.wf(),
        ensures
            final(self).wf(),
            final(self).spec_key() == old(self).spec_key(),
            final(self)@ == old(self)@.difference(other@),
    {
        self.store.difference_with(&other.store);
        self.len = self.store.len();
        self.ensure_correct_store();
    }

    /// Leaves in this container the values that are in exactly one of it
    /// and `other`.
    pub fn symmetric_difference_with(&mut self, other: &Self)
        requires
            old(self).wf(),
            other.wf(),
        ensures
            final(self).wf(),
            final(self).spec_key() == old(self).spec_key(),
            final(self)@ == symmetric_difference(old(self)@, other@),
    {
        self.store.symmetric_difference_with(&other.store);
        self.len = self.store.len();
        self.ensure_correct_store();
    }

    /// Makes of this container what `op` makes of it and `other`.
    pub fn combine(&mut self, op: SetOp, other: &Self)
        requires
            old(self).wf(),
            other.wf(),
        ensures
            final(self).wf(),
            final(self).spec_key() == old(self).spec_key(),
            final(self)@ == op.set(old(self)@, other@),
    {
        match op {
            SetOp::Union => self.union_with(other),
            SetOp::Intersection => self.intersect_with(other),
            SetOp::Difference => self.difference_with(other),
            SetOp::SymmetricDifference => self.symmetric_difference_with(other),
        }
    }

    /// The smallest value of the container that is no smaller than `from`.
    pub fn next_from(&self, from: Size) -> (r: Option<Size>)
        requires
            self.wf(),
        ensures
            is_next(self@, from.val(), val_of(r)),
    {
        self.store.next_from(from)
    }

    /// The smallest value of a container that is not empty.
    pub fn min(&self) -> (r: Size)
        requires
            self.wf(),
            self@.len() > 0,
        ensures
            self@.contains(r.val()),
            forall|x: int| self@.contains(x) ==> r.val() <= x,
    {
        self.store.min()
    }

    /// The largest value of a container that is not empty.
    pub fn max(&self) -> (r: Size)
        requires
            self.wf(),
            self@.len() > 0,
        ensures
            self@.contains(r.val()),
            forall|x: int| self@.contains(x) ==> x <= r.val(),
    {
        self.store.max()
    }

    /// Whether the container is what the record that begins at `next`
    /// holds: its own record is that record, but for the number of values
    /// in the header of an array, which is not looked at.
    pub open spec fn decoded_from(&self, bits: Seq<u64>, next: int) -> bool {
        self.record() == bits.subrange(next, next + record_len(bits, next)).update(
            1,
            self.spec_len(),
        )
    }

    /// Reads the container whose record begins at word `next` of `bits`.
    /// Fails where no record of a valid container begins there.
    pub fn from_raw64(bits: &Vec<u64>, next: usize) -> (r: Result<Self, Malformed>)
        requires
            narrow::<Size>(),
        ensures
            match r {
                Ok(c) => {
                    &&& valid_record::<Size>(bits@, next as int)
                    &&& c.wf()
                    &&& c.decoded_from(bits@, next as int)
                    &&& c.spec_key().val() == bits@[next as int]
                    &&& c@ == record_set(bits@, next as int)
                },
                Err(_) => !valid_record::<Size>(bits@, next as int),
            },
    {
        proof {
            Size::lemma_domain();
        }
        if bits.len() < 4 || next > bits.len() - 4 {
            return Err(Malformed);
        }
        let key_word: u64 = bits[next];
        let len: u64 = bits[next + 1];
        let store_type: u64 = bits[next + 2];
        let size: u64 = bits[next + 3];
        let room: usize = bits.len() - next - 4;
        if size > room as u64 {
            return Err(Malformed);
        }
        let count: usize = size as usize;
        let top: u64 = Size::max_value().to64();
        if key_word > top {
            return Err(Malformed);
        }
        let key: Size = Size::from64(key_word);
        let limit: u64 = array_limit::<Size>();
        let ghost payload = bits@.subrange(next + 4, next + 4 + size);
        let ghost whole = bits@.subrange(next as int, next + record_len(bits@, next as int));
        if store_type == 0 {
            if size > limit {
                return Err(Malformed);
            }
            let mut vs: Vec<Size> = Vec::new();
            let mut i: usize = 0;
            while i < count
                invariant
                    0 <= i <= count,
                    count == size,
                    next + 4 + count <= bits.len(),
                    top == Size::domain() - 1,
                    bits@[next + 2] == 0,
                    bits@[next + 3] == size,
                    payload == bits@.subrange(next + 4, next + 4 + size),
                    vs@.len() == i,
                    increasing(vals(vs@)),
                    forall|j: int| 0 <= j < i ==> #[trigger] vs@[j].val() == payload[j],
                decreases count - i,
            {
                let word: u64 = bits[next + 4 + i];
                proof {
                    assert(payload[i as int] == word);
                }
                if word > top {
                    return Err(Malformed);
                }
                if i > 0 && word <= bits[next + 4 + i - 1] {
                    proof {
                        let ints = words_as_ints(payload);
                        assert(ints[i - 1] == payload[i - 1]);
                        assert(ints[i as int] == payload[i as int]);
                        assert(ints[i - 1] >= ints[i as int]);
                    }
                    return Err(Malformed);
                }
                let entry: Size = Size::from64(word);
                let ghost before = vs@;
                proof {
                    assert forall|x: int| vals(before).to_set().contains(x) implies x
                        < entry.val() by {
                        let j = choose|j: int| 0 <= j < vals(before).len() && vals(before)[j] == x;
                        assert(before[j].val() == payload[j]);
                        assert(before[i - 1].val() == payload[i - 1]);
                        if j < i - 1 {
                            assert(vals(before)[j] < vals(before)[i - 1]);
                        }
                    }
                    crate::sorted::lemma_push(before, entry);
                }
                vs.push(entry);
                i = i + 1;
            }
            let r = Container { key: key, len: size, store: Store::Array(vs) };
            proof {
                r.store.lemma_view();
                assert(words_as_ints(payload) =~= vals(vs@));
                assert forall|j: int| 0 <= j < payload.len() implies #[trigger] payload[j]
                    < Size::domain() by {
                    vs@[j].lemma_val(vs@[j]);
                }
                assert(vals_as_words(vs@) =~= payload);
                assert(r.record() =~= whole.update(1, size));
            }
            Ok(r)
        } else if store_type == 1 {
            if size != top / 64 + 1 {
                return Err(Malformed);
            }
            let mut vs: Vec<u64> = Vec::new();
            let mut i: usize = 0;
            while i < count
                invariant
                    0 <= i <= count,
                    count == size,
                    next + 4 + count <= bits.len(),
                    payload == bits@.subrange(next + 4, next + 4 + size),
                    vs@ == payload.subrange(0, i as int),
                decreases count - i,
            {
                vs.push(bits[next + 4 + i]);
                proof {
                    assert(vs@ =~= payload.subrange(0, i + 1));
                }
                i = i + 1;
            }
            proof {
                assert(vs@ =~= payload);
            }
            let store: Store<Size> = Store::Bitmap(vs);
            proof {
                store.lemma_view();
            }
            let actual: u64 = store.len();
            if len != actual || len <= limit {
                return Err(Malformed);
            }
            let r = Container { key: key, len: len, store: store };
            proof {
                assert(r.record() =~= whole.update(1, len));
            }
            Ok(r)
        } else {
            Err(Malformed)
        }
    }

    /// The record of the container.
    pub fn to_raw64(&self) -> (r: Vec<u64>)
        ensures
            r@ == self.record(),
    {
        let mut raw64: Vec<u64> = Vec::new();
        raw64.push(self.key.to64());
        raw64.push(self.len);
        match &self.store {
            Store::Array(vec) => {
                raw64.push(0);
                raw64.push(vec.len() as u64);
                let ghost header = raw64@;
                let mut i: usize = 0;
                while i < vec.len()
                    invariant
                        0 <= i <= vec.len(),
                        raw64@ == header + vals_as_words(vec@.subrange(0, i as int)),
                    decreases vec.len() - i,
                {
                    raw64.push(vec[i].to64());
                    proof {
                        assert(vec@.subrange(0, i + 1) =~= vec@.subrange(0, i as int).push(
                            vec@[i as int],
                        ));
                        assert(raw64@ =~= header + vals_as_words(vec@.subrange(0, i + 1)));
                    }
                    i = i + 1;
                }
                proof {
                    assert(vec@.subrange(0, vec@.len() as int) =~= vec@);
                    assert(raw64@ =~= self.record());
                }
            },
            Store::Bitmap(bits) => {
                raw64.push(1);
                raw64.push(bits.len() as u64);
                let ghost header = raw64@;
                let mut i: usize = 0;
                while i < bits.len()
                    invariant
                        0 <= i <= bits.len(),
                        raw64@ == header + bits@.subrange(0, i as int),
                    decreases bits.len() - i,
                {
                    raw64.push(bits[i]);
                    proof {
                        assert(raw64@ =~= header + bits@.subrange(0, i + 1));
                    }
                    i = i + 1;
                }
                proof {
                    assert(bits@.subrange(0, bits@.len() as int) =~= bits@);
                    assert(raw64@ =~= self.record());
                }
            },
        }
        raw64
    }

    /// Turns the store into the kind that the number of values asks for:
    /// a bitmap with no more values than an array may hold becomes an
    /// array, an array with more becomes a bitmap.
    fn ensure_correct_store(&mut self)
        requires
            old(self).store.wf(),
            old(self).len == old(self).store@.len(),
        ensures
            final(self).wf(),
            final(self).key == old(self).key,
            final(self).len == old(self).len,
            final(self)@ == old(self)@,
            (old(self).store is Array <==> old(self).len <= limit::<Size>())
                ==> final(self).store.same_as(&old(self).store),
    {
        let limit = array_limit::<Size>();
        match &self.store {
            Store::Bitmap(_) => {
                if self.len <= limit {
                    self.store = self.store.to_array();
                }
            },
            Store::Array(_) => {
                if self.len > limit {
                    self.store = self.store.to_bitmap();
                }
            },
        }
    }
}

impl<Size: ExtInt> Clone for Container<Size> {
    /// A container with the same key and the same entries.
    fn clone(&self) -> (r: Self)
        ensures
            r.same_as(self),
    {
        Container { key: self.key, len: self.len, store: self.store.clone() }
    }
}

} // verus!

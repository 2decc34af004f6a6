//! Sorted arrays of values: strictly increasing sequences, and the passes
//! over one or two of them.

use vstd::prelude::*;
use crate::ops::symmetric_difference;
use crate::util::ExtInt;

verus! {

/// The numbers that a sequence of values stands for, in the same order.
pub open spec fn vals<Size: ExtInt>(s: Seq<Size>) -> Seq<int> {
    s.map_values(|e: Size| e.val())
}

/// Whether each number of the sequence is greater than all before it.
pub open spec fn increasing(s: Seq<int>) -> bool {
    forall|i: int, j: int| #![trigger s[i], s[j]] 0 <= i < j < s.len() ==> s[i] < s[j]
}

/// An increasing sequence holds each of its numbers once, so its set has
/// as many members as it has entries.
pub proof fn lemma_increasing_len(s: Seq<int>)
    requires
        increasing(s),
    ensures
        s.no_duplicates(),
        s.to_set().finite(),
        s.to_set().len() == s.len(),
{
    assert forall|i: int, j: int| 0 <= i < s.len() && 0 <= j < s.len() && i != j implies s[i]
        != s[j] by {
        if i < j {
            assert(s[i] < s[j]);
        } else {
            assert(s[j] < s[i]);
        }
    }
    s.unique_seq_to_set();
    vstd::seq_lib::seq_to_set_is_finite(s);
}

/// There is one increasing sequence of the numbers of a set: two
/// increasing sequences with the same numbers are the same sequence.
pub proof fn lemma_one_order(u: Seq<int>, v: Seq<int>)
    requires
        increasing(u),
        increasing(v),
        u.to_set() == v.to_set(),
    ensures
        u == v,
    decreases u.len(),
{
    lemma_increasing_len(u);
    lemma_increasing_len(v);
    if u.len() > 0 {
        let n = u.len() - 1;
        assert(u.to_set().contains(u[n]));
        assert(v.to_set().contains(v[n]));
        let j = choose|j: int| 0 <= j < v.len() && v[j] == u[n];
        let i = choose|i: int| 0 <= i < u.len() && u[i] == v[n];
        if i < n {
            assert(u[i] < u[n]);
        }
        if j < n {
            assert(v[j] < v[n]);
        }
        assert(u[n] == v[n]);
        let a = u.drop_last();
        let b = v.drop_last();
        assert forall|x: int| a.to_set().contains(x) <==> b.to_set().contains(x) by {
            if a.contains(x) {
                let p = choose|p: int| 0 <= p < a.len() && a[p] == x;
                assert(u[p] < u[n]);
                assert(u.to_set().contains(u[p]));
                let q = choose|q: int| 0 <= q < v.len() && v[q] == x;
                assert(b[q] == x);
            }
            if b.contains(x) {
                let q = choose|q: int| 0 <= q < b.len() && b[q] == x;
                assert(v[q] < v[n]);
                assert(v.to_set().contains(v[q]));
                let p = choose|p: int| 0 <= p < u.len() && u[p] == x;
                assert(a[p] == x);
            }
        }
        assert(a.to_set() =~= b.to_set());
        assert forall|p: int, q: int| 0 <= p < q < a.len() implies a[p] < a[q] by {
            assert(u[p] < u[q]);
        }
        assert forall|p: int, q: int| 0 <= p < q < b.len() implies b[p] < b[q] by {
            assert(v[p] < v[q]);
        }
        lemma_one_order(a, b);
        assert(u =~= a.push(u[n]));
        assert(v =~= b.push(v[n]));
    } else {
        assert(u =~= v);
    }
}

/// A number that lies strictly between two neighbours of an increasing
/// sequence, or before its first or after its last entry, is not in it.
pub proof fn lemma_absent(s: Seq<int>, at: int, x: int)
    requires
        increasing(s),
        0 <= at <= s.len(),
        at > 0 ==> s[at - 1] < x,
        at < s.len() ==> x < s[at],
    ensures
        !s.contains(x),
{
    if s.contains(x) {
        let i = choose|i: int| 0 <= i < s.len() && s[i] == x;
        if i < at {
            if i < at - 1 {
                assert(s[i] < s[at - 1]);
            }
        } else {
            if at < i {
                assert(s[at] < s[i]);
            }
        }
    }
}

/// Inserting a value between its neighbours keeps an array increasing and
/// adds exactly its number to the set.
pub proof fn lemma_insert_at<Size: ExtInt>(s: Seq<Size>, at: int, index: Size)
    requires
        increasing(vals(s)),
        0 <= at <= s.len(),
        at > 0 ==> s[at - 1].val() < index.val(),
        at < s.len() ==> index.val() < s[at].val(),
    ensures
        increasing(vals(s.insert(at, index))),
        vals(s.insert(at, index)) =~= vals(s).insert(at, index.val()),
        vals(s.insert(at, index)).to_set() =~= vals(s).to_set().insert(index.val()),
{
    let a = vals(s);
    let b = vals(s.insert(at, index));
    assert(b =~= a.insert(at, index.val()));
    assert forall|i: int, j: int| 0 <= i < j < b.len() implies b[i] < b[j] by {
        let pi = if i < at { i } else { i - 1 };
        let pj = if j < at { j } else { j - 1 };
        if i != at && j != at {
            assert(a[pi] < a[pj]);
        } else if i == at {
            if at < pj {
                assert(a[at] < a[pj]);
            }
        } else {
            if pi < at - 1 {
                assert(a[pi] < a[at - 1]);
            }
        }
    }
    assert forall|x: int| b.to_set().contains(x) <==> a.to_set().insert(index.val()).contains(
        x,
    ) by {
        if b.contains(x) {
            let i = choose|i: int| 0 <= i < b.len() && b[i] == x;
            if i < at {
                assert(a[i] == x);
            } else if i > at {
                assert(a[i - 1] == x);
            }
        }
        if a.contains(x) {
            let i = choose|i: int| 0 <= i < a.len() && a[i] == x;
            if i < at {
                assert(b[i] == x);
            } else {
                assert(b[i + 1] == x);
            }
        }
        if x == index.val() {
            assert(b[at] == x);
        }
    }
}

/// Removing the entry at `at` keeps an array increasing and takes exactly
/// its number out of the set.
pub proof fn lemma_remove_at<Size: ExtInt>(s: Seq<Size>, at: int)
    requires
        increasing(vals(s)),
        0 <= at < s.len(),
    ensures
        increasing(vals(s.remove(at))),
        vals(s.remove(at)) =~= vals(s).remove(at),
        vals(s.remove(at)).to_set() =~= vals(s).to_set().remove(s[at].val()),
{
    let a = vals(s);
    let b = vals(s.remove(at));
    assert(b =~= a.remove(at));
    assert forall|i: int, j: int| 0 <= i < j < b.len() implies b[i] < b[j] by {
        let pi = if i < at { i } else { i + 1 };
        let pj = if j < at { j } else { j + 1 };
        assert(a[pi] < a[pj]);
    }
    assert forall|x: int| b.to_set().contains(x) <==> a.to_set().remove(s[at].val()).contains(
        x,
    ) by {
        if b.contains(x) {
            let i = choose|i: int| 0 <= i < b.len() && b[i] == x;
            let pi = if i < at { i } else { i + 1 };
            assert(a[pi] == x);
            if pi < at {
                assert(a[pi] < a[at]);
            } else {
                assert(a[at] < a[pi]);
            }
        }
        if a.contains(x) && x != s[at].val() {
            let i = choose|i: int| 0 <= i < a.len() && a[i] == x;
            if i < at {
                assert(b[i] == x);
            } else {
                assert(b[i - 1] == x);
            }
        }
    }
}

/// The set of a sequence with one more entry is the set of the sequence
/// with that entry added.
pub proof fn lemma_push_set(s: Seq<int>, x: int)
    ensures
        s.push(x).to_set() =~= s.to_set().insert(x),
{
    let t = s.push(x);
    assert forall|y: int| t.to_set().contains(y) <==> s.to_set().insert(x).contains(y) by {
        if t.contains(y) {
            let i = choose|i: int| 0 <= i < t.len() && t[i] == y;
            if i < s.len() {
                assert(s[i] == y);
            }
        }
        if s.contains(y) {
            let i = choose|i: int| 0 <= i < s.len() && s[i] == y;
            assert(t[i] == y);
        }
        if y == x {
            assert(t[s.len() as int] == y);
        }
    }
}

/// Appending a value greater than all of an increasing array keeps it
/// increasing and adds exactly its number to the set.
pub proof fn lemma_push<Size: ExtInt>(s: Seq<Size>, entry: Size)
    requires
        increasing(vals(s)),
        forall|x: int| vals(s).to_set().contains(x) ==> x < entry.val(),
    ensures
        increasing(vals(s.push(entry))),
        vals(s.push(entry)) =~= vals(s).push(entry.val()),
        vals(s.push(entry)).to_set() =~= vals(s).to_set().insert(entry.val()),
{
    let n = s.len() as int;
    if n > 0 {
        assert(vals(s).to_set().contains(vals(s)[n - 1]));
    }
    lemma_insert_at(s, n, entry);
    assert(s.insert(n, entry) =~= s.push(entry));
    assert(vals(s).insert(n, entry.val()) =~= vals(s).push(entry.val()));
}

/// Putting `x` into `c` at `at` leaves what stood before it where it was
/// and moves what stood from there on up by one place.
pub proof fn lemma_inserted(c: Seq<int>, d: Seq<int>, at: int, x: int)
    requires
        0 <= at <= c.len(),
        d =~= c.insert(at, x),
    ensures
        forall|p: int| #![trigger d[p]] #![trigger c[p]] 0 <= p < at ==> d[p] == c[p],
        d[at] == x,
        forall|p: int| at < p < d.len() ==> #[trigger] d[p] == c[p - 1],
{
}

/// Taking the entry at `at` out of `c` leaves what stood before it where
/// it was and moves what stood after it down by one place.
pub proof fn lemma_removed(c: Seq<int>, d: Seq<int>, at: int)
    requires
        0 <= at < c.len(),
        d =~= c.remove(at),
    ensures
        forall|p: int| #![trigger d[p]] #![trigger c[p]] 0 <= p < at ==> d[p] == c[p],
        forall|p: int| at <= p < d.len() ==> #[trigger] d[p] == c[p + 1],
{
}

/// Looks `index` up in a sorted array: `Ok` with its place where it is
/// present, `Err` with the place at which it would have to be inserted
/// where it is not.
pub fn search<Size: ExtInt>(vec: &Vec<Size>, index: Size) -> (r: Result<usize, usize>)
    requires
        increasing(vals(vec@)),
    ensures
        match r {
            Ok(at) => at < vec.len() && vec[at as int].val() == index.val(),
            Err(at) => {
                &&& at <= vec.len()
                &&& !vals(vec@).contains(index.val())
                &&& at > 0 ==> vec[at - 1].val() < index.val()
                &&& at < vec.len() ==> index.val() < vec[at as int].val()
            },
        },
{
    let target: u64 = index.to64();
    let mut lo: usize = 0;
    let mut hi: usize = vec.len();
    while lo < hi
        invariant
            0 <= lo <= hi <= vec.len(),
            target == index.val(),
            increasing(vals(vec@)),
            lo > 0 ==> vec[lo - 1].val() < target,
            hi < vec.len() ==> target < vec[hi as int].val(),
        decreases hi - lo,
    {
        let mid: usize = lo + (hi - lo) / 2;
        let probe: u64 = vec[mid].to64();
        if probe == target {
            return Ok(mid);
        } else if probe < target {
            lo = mid + 1;
        } else {
            hi = mid;
        }
    }
    proof {
        assert(vals(vec@).len() == vec.len());
        assert(lo > 0 ==> vals(vec@)[lo - 1] == vec[lo - 1].val());
        assert(lo < vec.len() ==> vals(vec@)[lo as int] == vec[lo as int].val());
        lemma_absent(vals(vec@), lo as int, index.val());
    }
    Err(lo)
}

/// A vector with the same entries.
pub fn copy_values<T: Copy>(v: &Vec<T>) -> (r: Vec<T>)
    ensures
        r@ == v@,
{
    let mut out: Vec<T> = Vec::new();
    let mut i: usize = 0;
    while i < v.len()
        invariant
            0 <= i <= v.len(),
            out@ == v@.subrange(0, i as int),
        decreases v.len() - i,
    {
        out.push(v[i]);
        proof {
            assert(out@ =~= v@.subrange(0, i + 1));
        }
        i = i + 1;
    }
    proof {
        assert(out@ =~= v@);
    }
    out
}

/// Whether two sorted arrays have no value in common, by one pass over
/// both.
pub fn arrays_disjoint<Size: ExtInt>(vec1: &Vec<Size>, vec2: &Vec<Size>) -> (r: bool)
    requires
        increasing(vals(vec1@)),
        increasing(vals(vec2@)),
    ensures
        r == vals(vec1@).to_set().disjoint(vals(vec2@).to_set()),
{
    let ghost a = vals(vec1@);
    let ghost b = vals(vec2@);
    let mut i1: usize = 0;
    let mut i2: usize = 0;
    while i1 < vec1.len() && i2 < vec2.len()
        invariant
            0 <= i1 <= vec1.len(),
            0 <= i2 <= vec2.len(),
            a == vals(vec1@),
            b == vals(vec2@),
            increasing(a),
            increasing(b),
            forall|m: int| 0 <= m < i1 ==> !b.contains(#[trigger] a[m]),
            forall|j: int| 0 <= j < i2 ==> !a.contains(#[trigger] b[j]),
            i1 < a.len() && i2 > 0 ==> b[i2 - 1] < a[i1 as int],
            i2 < b.len() && i1 > 0 ==> a[i1 - 1] < b[i2 as int],
        decreases vec1.len() - i1 + vec2.len() - i2,
    {
        let v1: u64 = vec1[i1].to64();
        let v2: u64 = vec2[i2].to64();
        proof {
            assert(a[i1 as int] == v1);
            assert(b[i2 as int] == v2);
        }
        if v1 == v2 {
            proof {
                assert(a.to_set().contains(v1 as int));
                assert(b.to_set().contains(v1 as int));
            }
            return false;
        } else if v1 < v2 {
            proof {
                lemma_absent(b, i2 as int, v1 as int);
                if i1 + 1 < a.len() {
                    assert(a[i1 as int] < a[i1 + 1]);
                }
            }
            i1 = i1 + 1;
        } else {
            proof {
                lemma_absent(a, i1 as int, v2 as int);
                if i2 + 1 < b.len() {
                    assert(b[i2 as int] < b[i2 + 1]);
                }
            }
            i2 = i2 + 1;
        }
    }
    proof {
        assert forall|x: int| !(a.to_set().contains(x) && b.to_set().contains(x)) by {
            if a.contains(x) && b.contains(x) {
                let m = choose|m: int| 0 <= m < a.len() && a[m] == x;
                let j = choose|j: int| 0 <= j < b.len() && b[j] == x;
                if m < i1 {
                    assert(!b.contains(a[m]));
                } else {
                    assert(!a.contains(b[j]));
                }
            }
        }
    }
    true
}

/// Whether every value of the sorted array `vec1` is in the sorted array
/// `vec2`, by one pass over both.
pub fn array_within_array<Size: ExtInt>(vec1: &Vec<Size>, vec2: &Vec<Size>) -> (r: bool)
    requires
        increasing(vals(vec1@)),
        increasing(vals(vec2@)),
    ensures
        r == vals(vec1@).to_set().subset_of(vals(vec2@).to_set()),
{
    let ghost a = vals(vec1@);
    let ghost b = vals(vec2@);
    let mut i1: usize = 0;
    let mut i2: usize = 0;
    while i1 < vec1.len()
        invariant
            0 <= i1 <= vec1.len(),
            0 <= i2 <= vec2.len(),
            a == vals(vec1@),
            b == vals(vec2@),
            increasing(a),
            increasing(b),
            forall|m: int| 0 <= m < i1 ==> b.contains(#[trigger] a[m]),
            i1 < a.len() && i2 > 0 ==> b[i2 - 1] < a[i1 as int],
        decreases vec1.len() - i1 + vec2.len() - i2,
    {
        let v1: u64 = vec1[i1].to64();
        proof {
            assert(a[i1 as int] == v1);
        }
        if i2 >= vec2.len() {
            proof {
                lemma_absent(b, i2 as int, v1 as int);
                assert(a.to_set().contains(v1 as int));
            }
            return false;
        }
        let v2: u64 = vec2[i2].to64();
        proof {
            assert(b[i2 as int] == v2);
        }
        if v1 == v2 {
            proof {
                if i1 + 1 < a.len() {
                    assert(a[i1 as int] < a[i1 + 1]);
                }
            }
            i1 = i1 + 1;
            i2 = i2 + 1;
        } else if v1 < v2 {
            proof {
                lemma_absent(b, i2 as int, v1 as int);
                assert(a.to_set().contains(v1 as int));
            }
            return false;
        } else {
            i2 = i2 + 1;
        }
    }
    proof {
        assert forall|x: int| a.to_set().contains(x) implies b.to_set().contains(x) by {
            let m = choose|m: int| 0 <= m < a.len() && a[m] == x;
            assert(b.contains(a[m]));
        }
    }
    true
}

/// Keeps in the sorted array `vec1` the values that are in the sorted
/// array `vec2` too, by one pass over both.
pub fn intersect_arrays<Size: ExtInt>(vec1: &mut Vec<Size>, vec2: &Vec<Size>)
    requires
        increasing(vals(old(vec1)@)),
        increasing(vals(vec2@)),
    ensures
        increasing(vals(final(vec1)@)),
        vals(final(vec1)@).to_set() == vals(old(vec1)@).to_set().intersect(vals(vec2@).to_set()),
{
    let ghost a = vals(vec1@);
    let ghost b = vals(vec2@);
    let ghost mut k: int = 0;
    let mut i1: usize = 0;
    let mut i2: usize = 0;
    while i1 < vec1.len()
        invariant
            b == vals(vec2@),
            increasing(a),
            increasing(b),
            increasing(vals(vec1@)),
            0 <= i1 <= vec1.len(),
            0 <= i2 <= vec2.len(),
            0 <= k <= a.len(),
            vec1.len() - i1 == a.len() - k,
            forall|p: int| i1 <= p < vec1.len() ==> #[trigger] vals(vec1@)[p] == a[p - i1 + k],
            i2 > 0 && k < a.len() ==> b[i2 - 1] < a[k],
            k > 0 && i2 < b.len() ==> a[k - 1] < b[i2 as int],
            forall|p: int|
                0 <= p < i1 ==> a.contains(#[trigger] vals(vec1@)[p]) && b.contains(
                    vals(vec1@)[p],
                ),
            forall|m: int|
                0 <= m < k && b.contains(#[trigger] a[m]) ==> exists|p: int|
                    0 <= p < i1 && #[trigger] vals(vec1@)[p] == a[m],
        decreases vec1.len() - i1 + vec2.len() - i2,
    {
        let ghost c = vals(vec1@);
        let ghost before = vec1@;
        let v1: u64 = vec1[i1].to64();
        proof {
            assert(c[i1 as int] == v1);
            assert(a[k] == v1);
            if k + 1 < a.len() {
                assert(a[k] < a[k + 1]);
            }
            if i2 + 1 < b.len() {
                assert(b[i2 as int] < b[i2 + 1]);
            }
        }
        if i2 >= vec2.len() {
            vec1.remove(i1);
            proof {
                lemma_absent(b, i2 as int, v1 as int);
                lemma_remove_at(before, i1 as int);
                lemma_removed(c, vals(vec1@), i1 as int);
                k = k + 1;
            }
        } else {
            let v2: u64 = vec2[i2].to64();
            proof {
                assert(b[i2 as int] == v2);
            }
            if v1 < v2 {
                vec1.remove(i1);
                proof {
                    lemma_absent(b, i2 as int, v1 as int);
                    lemma_remove_at(before, i1 as int);
                    lemma_removed(c, vals(vec1@), i1 as int);
                    k = k + 1;
                }
            } else if v1 > v2 {
                i2 = i2 + 1;
            } else {
                proof {
                    assert(a.contains(c[i1 as int]));
                    assert(b.contains(c[i1 as int]));
                    k = k + 1;
                }
                i1 = i1 + 1;
                i2 = i2 + 1;
            }
        }
    }
    proof {
        let c = vals(vec1@);
        assert forall|x: int| c.to_set().contains(x) <==> a.to_set().intersect(
            b.to_set(),
        ).contains(x) by {
            if c.contains(x) {
                let p = choose|p: int| 0 <= p < c.len() && c[p] == x;
                assert(a.contains(c[p]) && b.contains(c[p]));
            }
            if a.contains(x) && b.contains(x) {
                let m = choose|m: int| 0 <= m < a.len() && a[m] == x;
                assert(b.contains(a[m]));
                let p = choose|p: int| 0 <= p < i1 && c[p] == a[m];
                assert(c[p] == x);
            }
        }
        assert(c.to_set() =~= a.to_set().intersect(b.to_set()));
    }
}

/// Takes out of the sorted array `vec1` the values that are in the sorted
/// array `vec2`, by one pass over both.
pub fn difference_arrays<Size: ExtInt>(vec1: &mut Vec<Size>, vec2: &Vec<Size>)
    requires
        increasing(vals(old(vec1)@)),
        increasing(vals(vec2@)),
    ensures
        increasing(vals(final(vec1)@)),
        vals(final(vec1)@).to_set() == vals(old(vec1)@).to_set().difference(
            vals(vec2@).to_set(),
        ),
{
    let ghost a = vals(vec1@);
    let ghost b = vals(vec2@);
    let ghost mut k: int = 0;
    let mut i1: usize = 0;
    let mut i2: usize = 0;
    while i1 < vec1.len() && i2 < vec2.len()
        invariant
            b == vals(vec2@),
            increasing(a),
            increasing(b),
            increasing(vals(vec1@)),
            0 <= i1 <= vec1.len(),
            0 <= i2 <= vec2.len(),
            0 <= k <= a.len(),
            vec1.len() - i1 == a.len() - k,
            forall|p: int| i1 <= p < vec1.len() ==> #[trigger] vals(vec1@)[p] == a[p - i1 + k],
            i2 > 0 && k < a.len() ==> b[i2 - 1] < a[k],
            k > 0 && i2 < b.len() ==> a[k - 1] < b[i2 as int],
            forall|p: int|
                0 <= p < i1 ==> a.contains(#[trigger] vals(vec1@)[p]) && !b.contains(
                    vals(vec1@)[p],
                ),
            forall|m: int|
                0 <= m < k && !b.contains(#[trigger] a[m]) ==> exists|p: int|
                    0 <= p < i1 && #[trigger] vals(vec1@)[p] == a[m],
        decreases vec1.len() - i1 + vec2.len() - i2,
    {
        let ghost c = vals(vec1@);
        let ghost before = vec1@;
        let v1: u64 = vec1[i1].to64();
        let v2: u64 = vec2[i2].to64();
        proof {
            assert(c[i1 as int] == v1);
            assert(a[k] == v1);
            assert(b[i2 as int] == v2);
            if k + 1 < a.len() {
                assert(a[k] < a[k + 1]);
            }
            if i2 + 1 < b.len() {
                assert(b[i2 as int] < b[i2 + 1]);
            }
        }
        if v1 < v2 {
            proof {
                lemma_absent(b, i2 as int, v1 as int);
                assert(a.contains(c[i1 as int]));
                k = k + 1;
            }
            i1 = i1 + 1;
        } else if v1 > v2 {
            i2 = i2 + 1;
        } else {
            vec1.remove(i1);
            proof {
                assert(b.contains(a[k]));
                lemma_remove_at(before, i1 as int);
                lemma_removed(c, vals(vec1@), i1 as int);
                k = k + 1;
            }
            i2 = i2 + 1;
        }
    }
    proof {
        let c = vals(vec1@);
        assert forall|x: int| c.to_set().contains(x) <==> a.to_set().difference(
            b.to_set(),
        ).contains(x) by {
            if c.contains(x) {
                let p = choose|p: int| 0 <= p < c.len() && c[p] == x;
                if p < i1 {
                    assert(a.contains(c[p]) && !b.contains(c[p]));
                } else {
                    assert(c[p] == a[p - i1 + k]);
                    if k < p - i1 + k {
                        assert(a[k] < a[p - i1 + k]);
                    }
                    lemma_absent(b, b.len() as int, x);
                }
            }
            if a.contains(x) && !b.contains(x) {
                let m = choose|m: int| 0 <= m < a.len() && a[m] == x;
                if m < k {
                    assert(!b.contains(a[m]));
                    let p = choose|p: int| 0 <= p < i1 && c[p] == a[m];
                    assert(c[p] == x);
                } else {
                    assert(c[m - k + i1] == a[m]);
                }
            }
        }
        assert(c.to_set() =~= a.to_set().difference(b.to_set()));
    }
}

/// The state of a pass that turns the increasing sequence `a` into its
/// symmetric difference with the increasing sequence `b`: `c` is what has
/// become of `a` so far. The first `k` entries of `a` and the first `i2` of
/// `b` are settled, the first `i1` entries of `c` are what they leave, and
/// the rest of `c` is the rest of `a`, still to be looked at.
pub open spec fn toggling(a: Seq<int>, b: Seq<int>, c: Seq<int>, i1: int, i2: int, k: int) -> bool {
    &&& increasing(a)
    &&& increasing(b)
    &&& increasing(c)
    &&& 0 <= i1 <= c.len()
    &&& 0 <= i2 <= b.len()
    &&& 0 <= k <= a.len()
    &&& c.len() - i1 == a.len() - k
    &&& forall|p: int| i1 <= p < c.len() ==> #[trigger] c[p] == a[p - i1 + k]
    &&& i2 > 0 && k < a.len() ==> b[i2 - 1] < a[k]
    &&& k > 0 && i2 < b.len() ==> a[k - 1] < b[i2]
    &&& i1 > 0 && i2 < b.len() ==> c[i1 - 1] < b[i2]
    &&& forall|p: int| 0 <= p < i1 ==> a.contains(#[trigger] c[p]) != b.contains(c[p])
    &&& forall|m: int|
        0 <= m < k && !b.contains(#[trigger] a[m]) ==> exists|p: int|
            0 <= p < i1 && #[trigger] c[p] == a[m]
    &&& forall|j: int|
        0 <= j < i2 && !a.contains(#[trigger] b[j]) ==> exists|p: int|
            0 <= p < i1 && #[trigger] c[p] == b[j]
}

/// A value of `a` that is smaller than the next of `b` is in `a` alone and
/// stays.
pub proof fn lemma_toggling_keep(a: Seq<int>, b: Seq<int>, c: Seq<int>, i1: int, i2: int, k: int)
    requires
        toggling(a, b, c, i1, i2, k),
        i1 < c.len(),
        i2 < b.len(),
        c[i1] < b[i2],
    ensures
        toggling(a, b, c, i1 + 1, i2, k + 1),
{
    assert(c[i1] == a[k]);
    if k + 1 < a.len() {
        assert(a[k] < a[k + 1]);
    }
    lemma_absent(b, i2, a[k]);
    assert(a.contains(c[i1]));
    assert forall|m: int| 0 <= m < k + 1 && !b.contains(#[trigger] a[m]) implies exists|p: int|
        0 <= p < i1 + 1 && #[trigger] c[p] == a[m] by {
        if m < k {
            let p = choose|p: int| 0 <= p < i1 && c[p] == a[m];
            assert(c[p] == a[m]);
        } else {
            assert(c[i1] == a[m]);
        }
    }
    assert forall|j: int| 0 <= j < i2 && !a.contains(#[trigger] b[j]) implies exists|p: int|
        0 <= p < i1 + 1 && #[trigger] c[p] == b[j] by {
        let p = choose|p: int| 0 <= p < i1 && c[p] == b[j];
        assert(c[p] == b[j]);
    }
}

/// A value of `b` that is smaller than the next of `a` is in `b` alone and
/// is put in before it.
pub proof fn lemma_toggling_insert(
    a: Seq<int>,
    b: Seq<int>,
    c: Seq<int>,
    d: Seq<int>,
    i1: int,
    i2: int,
    k: int,
)
    requires
        toggling(a, b, c, i1, i2, k),
        i1 < c.len(),
        i2 < b.len(),
        b[i2] < c[i1],
        increasing(d),
        d =~= c.insert(i1, b[i2]),
    ensures
        toggling(a, b, d, i1 + 1, i2 + 1, k),
{
    assert(c[i1] == a[k]);
    if i2 + 1 < b.len() {
        assert(b[i2] < b[i2 + 1]);
    }
    lemma_inserted(c, d, i1, b[i2]);
    lemma_absent(a, k, b[i2]);
    assert(b.contains(b[i2]));
    assert forall|p: int| 0 <= p < i1 + 1 implies a.contains(#[trigger] d[p]) != b.contains(
        d[p],
    ) by {
        if p < i1 {
            assert(d[p] == c[p]);
        }
    }
    assert forall|m: int| 0 <= m < k && !b.contains(#[trigger] a[m]) implies exists|p: int|
        0 <= p < i1 + 1 && #[trigger] d[p] == a[m] by {
        let p = choose|p: int| 0 <= p < i1 && c[p] == a[m];
        assert(d[p] == a[m]);
    }
    assert forall|j: int| 0 <= j < i2 + 1 && !a.contains(#[trigger] b[j]) implies exists|p: int|
        0 <= p < i1 + 1 && #[trigger] d[p] == b[j] by {
        if j < i2 {
            let p = choose|p: int| 0 <= p < i1 && c[p] == b[j];
            assert(d[p] == b[j]);
        } else {
            assert(d[i1] == b[j]);
        }
    }
}

/// A value that is in both is taken out.
pub proof fn lemma_toggling_remove(
    a: Seq<int>,
    b: Seq<int>,
    c: Seq<int>,
    d: Seq<int>,
    i1: int,
    i2: int,
    k: int,
)
    requires
        toggling(a, b, c, i1, i2, k),
        i1 < c.len(),
        i2 < b.len(),
        b[i2] == c[i1],
        increasing(d),
        d =~= c.remove(i1),
    ensures
        toggling(a, b, d, i1, i2 + 1, k + 1),
{
    assert(c[i1] == a[k]);
    if k + 1 < a.len() {
        assert(a[k] < a[k + 1]);
    }
    if i2 + 1 < b.len() {
        assert(b[i2] < b[i2 + 1]);
    }
    lemma_removed(c, d, i1);
    assert(b.contains(a[k]));
    assert(a.contains(b[i2]));
    assert forall|p: int| 0 <= p < i1 implies a.contains(#[trigger] d[p]) != b.contains(d[p]) by {
        assert(d[p] == c[p]);
    }
    assert forall|m: int| 0 <= m < k + 1 && !b.contains(#[trigger] a[m]) implies exists|p: int|
        0 <= p < i1 && #[trigger] d[p] == a[m] by {
        let p = choose|p: int| 0 <= p < i1 && c[p] == a[m];
        assert(d[p] == a[m]);
    }
    assert forall|j: int| 0 <= j < i2 + 1 && !a.contains(#[trigger] b[j]) implies exists|p: int|
        0 <= p < i1 && #[trigger] d[p] == b[j] by {
        let p = choose|p: int| 0 <= p < i1 && c[p] == b[j];
        assert(d[p] == b[j]);
    }
}

/// Once one of the two sequences is used up, what the pass has made of `a`
/// holds every value that is in exactly one of `a` and the settled part of
/// `b`, and the rest of `b` lies above all of it.
pub proof fn lemma_toggling_end(a: Seq<int>, b: Seq<int>, c: Seq<int>, i1: int, i2: int, k: int)
    requires
        toggling(a, b, c, i1, i2, k),
        i1 == c.len() || i2 == b.len(),
    ensures
        forall|p: int| 0 <= p < c.len() ==> a.contains(#[trigger] c[p]) != b.contains(c[p]),
        forall|m: int|
            0 <= m < a.len() && !b.contains(#[trigger] a[m]) ==> exists|p: int|
                0 <= p < c.len() && #[trigger] c[p] == a[m],
        forall|j: int|
            0 <= j < i2 && !a.contains(#[trigger] b[j]) ==> exists|p: int|
                0 <= p < c.len() && #[trigger] c[p] == b[j],
        i2 < b.len() && a.len() > 0 ==> a[a.len() - 1] < b[i2],
        i2 < b.len() && c.len() > 0 ==> c[c.len() - 1] < b[i2],
{
    assert forall|p: int| 0 <= p < c.len() implies a.contains(#[trigger] c[p]) != b.contains(
        c[p],
    ) by {
        if p >= i1 {
            assert(c[p] == a[p - i1 + k]);
            assert(a.contains(c[p]));
            if k < p - i1 + k {
                assert(a[k] < a[p - i1 + k]);
            }
            lemma_absent(b, b.len() as int, c[p]);
        }
    }
    assert forall|m: int| 0 <= m < a.len() && !b.contains(#[trigger] a[m]) implies exists|p: int|
        0 <= p < c.len() && #[trigger] c[p] == a[m] by {
        if m < k {
            let p = choose|p: int| 0 <= p < i1 && c[p] == a[m];
            assert(c[p] == a[m]);
        } else {
            assert(c[m - k + i1] == a[m]);
        }
    }
    assert forall|j: int| 0 <= j < i2 && !a.contains(#[trigger] b[j]) implies exists|p: int|
        0 <= p < c.len() && #[trigger] c[p] == b[j] by {
        let p = choose|p: int| 0 <= p < i1 && c[p] == b[j];
        assert(c[p] == b[j]);
    }
}

/// Leaves in the sorted array `vec1` the values that are in exactly one of
/// it and the sorted array `vec2`, by one pass over both.
pub fn symmetric_difference_arrays<Size: ExtInt>(vec1: &mut Vec<Size>, vec2: &Vec<Size>)
    requires
        increasing(vals(old(vec1)@)),
        increasing(vals(vec2@)),
    ensures
        increasing(vals(final(vec1)@)),
        vals(final(vec1)@).to_set() == symmetric_difference(
            vals(old(vec1)@).to_set(),
            vals(vec2@).to_set(),
        ),
{
    let ghost a = vals(vec1@);
    let ghost b = vals(vec2@);
    let ghost mut k: int = 0;
    let mut i1: usize = 0;
    let mut i2: usize = 0;
    while i1 < vec1.len() && i2 < vec2.len()
        invariant
            b == vals(vec2@),
            toggling(a, b, vals(vec1@), i1 as int, i2 as int, k),
        decreases vec1.len() - i1 + vec2.len() - i2,
    {
        let ghost c = vals(vec1@);
        let ghost before = vec1@;
        let v1: u64 = vec1[i1].to64();
        let entry: Size = vec2[i2];
        let v2: u64 = entry.to64();
        proof {
            assert(c[i1 as int] == v1);
            assert(b[i2 as int] == v2);
        }
        if v1 < v2 {
            proof {
                lemma_toggling_keep(a, b, c, i1 as int, i2 as int, k);
                k = k + 1;
            }
            i1 = i1 + 1;
        } else if v1 > v2 {
            vec1.insert(i1, entry);
            proof {
                assert(i1 > 0 ==> before[i1 - 1].val() == c[i1 - 1]);
                assert(before[i1 as int].val() == c[i1 as int]);
                lemma_insert_at(before, i1 as int, entry);
                lemma_toggling_insert(a, b, c, vals(vec1@), i1 as int, i2 as int, k);
            }
            i1 = i1 + 1;
            i2 = i2 + 1;
        } else {
            vec1.remove(i1);
            proof {
                lemma_remove_at(before, i1 as int);
                lemma_toggling_remove(a, b, c, vals(vec1@), i1 as int, i2 as int, k);
                k = k + 1;
            }
            i2 = i2 + 1;
        }
    }
    let ghost merged = vals(vec1@);
    let ghost from = i2 as int;
    proof {
        lemma_toggling_end(a, b, merged, i1 as int, from, k);
    }
    while i2 < vec2.len()
        invariant
            0 <= from <= i2 <= vec2.len(),
            b == vals(vec2@),
            increasing(b),
            increasing(vals(vec1@)),
            merged.len() <= vec1.len(),
            vec1.len() - merged.len() == i2 - from,
            forall|p: int| 0 <= p < merged.len() ==> #[trigger] vals(vec1@)[p] == merged[p],
            forall|p: int|
                merged.len() <= p < vec1.len() ==> #[trigger] vals(vec1@)[p] == b[p
                    - merged.len() + from],
            from < b.len() && merged.len() > 0 ==> merged[merged.len() - 1] < b[from],
        decreases vec2.len() - i2,
    {
        let ghost before = vec1@;
        let ghost c = vals(vec1@);
        let entry: Size = vec2[i2];
        proof {
            assert(b[i2 as int] == entry.val());
            assert forall|x: int| c.to_set().contains(x) implies x < entry.val() by {
                let p = choose|p: int| 0 <= p < c.len() && c[p] == x;
                if p < merged.len() {
                    assert(c[p] == merged[p]);
                    if p < merged.len() - 1 {
                        assert(c[p] < c[merged.len() - 1]);
                    }
                    if from < i2 {
                        assert(b[from] < b[i2 as int]);
                    }
                } else {
                    assert(c[p] == b[p - merged.len() + from]);
                    assert(b[p - merged.len() + from] < b[i2 as int]);
                }
            }
        }
        vec1.push(entry);
        proof {
            lemma_push(before, entry);
        }
        i2 = i2 + 1;
    }
    proof {
        let c = vals(vec1@);
        let want = symmetric_difference(a.to_set(), b.to_set());
        assert forall|x: int| c.to_set().contains(x) <==> want.contains(x) by {
            if c.contains(x) {
                let p = choose|p: int| 0 <= p < c.len() && c[p] == x;
                if p < merged.len() {
                    assert(c[p] == merged[p]);
                    assert(a.contains(merged[p]) != b.contains(merged[p]));
                } else {
                    let j = p - merged.len() + from;
                    assert(c[p] == b[j]);
                    assert(b.contains(b[j]));
                    if from < j {
                        assert(b[from] < b[j]);
                    }
                    lemma_absent(a, a.len() as int, x);
                }
            }
            if a.contains(x) && !b.contains(x) {
                let m = choose|m: int| 0 <= m < a.len() && a[m] == x;
                assert(!b.contains(a[m]));
                let p = choose|p: int| 0 <= p < merged.len() && merged[p] == a[m];
                assert(c[p] == x);
            }
            if b.contains(x) && !a.contains(x) {
                let j = choose|j: int| 0 <= j < b.len() && b[j] == x;
                if j < from {
                    assert(!a.contains(b[j]));
                    let p = choose|p: int| 0 <= p < merged.len() && merged[p] == b[j];
                    assert(c[p] == x);
                } else {
                    assert(c[j - from + merged.len()] == b[j]);
                }
            }
        }
        assert(c.to_set() =~= want);
    }
}

} // verus!

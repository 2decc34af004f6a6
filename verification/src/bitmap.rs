//! The set itself: its containers in key order.

use vstd::prelude::*;
use crate::container::{record_len, record_set, valid_record, Container, Malformed};
use crate::ops::{is_next, symmetric_difference, SetOp};
use crate::sorted::{increasing, lemma_push, lemma_push_set, vals};
use crate::store::{narrow, val_of};
use crate::util::{ExtInt, Halveable};

verus! {

/// Whether container `c` holds the low half of `x` under the high half of
/// `x` as its key.
pub open spec fn keeps<H: ExtInt>(c: Container<H>, x: int) -> bool {
    c.spec_key().val() == x / H::domain() && c@.contains(x % H::domain())
}

/// Whether one of the first `n` containers of `cs` holds `x`.
pub open spec fn holds_below<H: ExtInt>(cs: Seq<Container<H>>, n: int, x: int) -> bool {
    exists|p: int| 0 <= p < n && p < cs.len() && keeps(#[trigger] cs[p], x)
}

/// The numbers that the first `n` containers of `cs` hold.
pub open spec fn view_below<H: ExtInt>(cs: Seq<Container<H>>, n: int) -> Set<int> {
    Set::new(|x: int| holds_below(cs, n, x))
}

/// The numbers that the containers `cs` hold.
pub open spec fn view_of<H: ExtInt>(cs: Seq<Container<H>>) -> Set<int> {
    view_below(cs, cs.len() as int)
}

/// The numbers that the containers of `cs` from place `from` on hold.
pub open spec fn view_from<H: ExtInt>(cs: Seq<Container<H>>, from: int) -> Set<int> {
    Set::new(|x: int| exists|p: int| from <= p < cs.len() && keeps(#[trigger] cs[p], x))
}

/// Whether the keys of `cs` are strictly increasing.
pub open spec fn keys_increasing<H: ExtInt>(cs: Seq<Container<H>>) -> bool {
    forall|i: int, j: int|
        #![trigger cs[i], cs[j]]
        0 <= i < j < cs.len() ==> cs[i].spec_key().val() < cs[j].spec_key().val()
}

/// Whether each container of `cs` is valid and holds a value.
pub open spec fn all_valid<H: ExtInt>(cs: Seq<Container<H>>) -> bool {
    forall|i: int| 0 <= i < cs.len() ==> (#[trigger] cs[i]).wf() && cs[i]@.len() > 0
}

/// How many values the first `n` containers of `cs` hold together.
pub open spec fn total<H: ExtInt>(cs: Seq<Container<H>>, n: int) -> int
    decreases n,
{
    if n <= 0 {
        0
    } else {
        total(cs, n - 1) + cs[n - 1]@.len()
    }
}

/// A number is its high half times the size of a half, plus its low half.
pub proof fn lemma_parts(m: int, x: int)
    requires
        m > 0,
    ensures
        x == (x / m) * m + x % m,
        0 <= x % m < m,
        x >= 0 <==> x / m >= 0,
{
    vstd::arithmetic::div_mod::lemma_fundamental_div_mod(x, m);
    vstd::arithmetic::div_mod::lemma_mod_bound(x, m);
    assert((x / m) * m == m * (x / m)) by (nonlinear_arith);
    if x / m >= 0 {
        assert((x / m) * m >= 0) by (nonlinear_arith)
            requires
                x / m >= 0,
                m > 0,
        ;
    } else {
        assert((x / m) * m <= -m) by (nonlinear_arith)
            requires
                x / m <= -1,
                m > 0,
        ;
    }
}

/// The halves of a number put together from a high and a low half are
/// those halves.
pub proof fn lemma_joined(m: int, k: int, l: int)
    requires
        m > 0,
        0 <= l < m,
    ensures
        (k * m + l) / m == k,
        (k * m + l) % m == l,
{
    vstd::arithmetic::div_mod::lemma_fundamental_div_mod_converse(k * m + l, m, k, l);
}

/// A number with a smaller high half is smaller, whatever the low halves.
pub proof fn lemma_order(m: int, k1: int, l1: int, k2: int, l2: int)
    requires
        m > 0,
        0 <= l1 < m,
        0 <= l2,
        k1 < k2,
    ensures
        k1 * m + l1 < k2 * m + l2,
{
    assert((k1 + 1) * m <= k2 * m) by (nonlinear_arith)
        requires
            k1 + 1 <= k2,
            m > 0,
    ;
    assert((k1 + 1) * m == k1 * m + m) by (nonlinear_arith);
}

/// The number whose high half is the key of `c` and whose low half is `l`
/// is held by `c` exactly where `c` holds `l`.
pub proof fn lemma_keeps<H: ExtInt>(c: Container<H>, l: int)
    requires
        0 <= l < H::domain(),
    ensures
        keeps(c, c.spec_key().val() * H::domain() + l) == c@.contains(l),
        (c.spec_key().val() * H::domain() + l) / H::domain() == c.spec_key().val(),
{
    lemma_joined(H::domain(), c.spec_key().val(), l);
}

/// Containers in key order have each key once.
pub proof fn lemma_one_per_key<H: ExtInt>(cs: Seq<Container<H>>, p: int, q: int)
    requires
        keys_increasing(cs),
        0 <= p < cs.len(),
        0 <= q < cs.len(),
        cs[p].spec_key().val() == cs[q].spec_key().val(),
    ensures
        p == q,
{
    if p < q {
        assert(cs[p].spec_key().val() < cs[q].spec_key().val());
    } else if q < p {
        assert(cs[q].spec_key().val() < cs[p].spec_key().val());
    }
}

/// More containers hold no fewer values.
pub proof fn lemma_total_grows<H: ExtInt>(cs: Seq<Container<H>>, n: int, k: int)
    requires
        0 <= n <= k,
    ensures
        total(cs, n) <= total(cs, k),
    decreases k - n,
{
    if n < k {
        lemma_total_grows(cs, n, k - 1);
    }
}

/// The numbers that one container holds, under its key, are as many as
/// its values.
pub proof fn lemma_lifted<H: ExtInt>(c: Container<H>)
    requires
        c.wf(),
    ensures
        Set::new(|x: int| keeps(c, x)).finite(),
        Set::new(|x: int| keeps(c, x)).len() == c@.len(),
{
    H::lemma_domain();
    c.lemma_view();
    let m = H::domain();
    let k = c.spec_key().val();
    let f = |l: int| k * m + l;
    let lifted = Set::new(|x: int| keeps(c, x));
    assert forall|x: int| lifted.contains(x) <==> c@.map(f).contains(x) by {
        if keeps(c, x) {
            lemma_parts(m, x);
            assert(c@.contains(x % m) && x == f(x % m));
        }
        if c@.map(f).contains(x) {
            let l = choose|l: int| c@.contains(l) && x == f(l);
            lemma_joined(m, k, l);
        }
    }
    assert(lifted =~= c@.map(f));
    vstd::set_lib::lemma_map_size(c@, lifted, f);
}

/// Valid containers in key order hold finitely many numbers, all of the
/// full width: as many as their values together.
pub proof fn lemma_total<H: ExtInt>(cs: Seq<Container<H>>, n: int)
    requires
        all_valid(cs),
        keys_increasing(cs),
        0 <= n <= cs.len(),
    ensures
        view_below(cs, n).finite(),
        view_below(cs, n).len() == total(cs, n),
        forall|x: int| view_below(cs, n).contains(x) ==> 0 <= x < H::domain() * H::domain(),
        total(cs, n) <= H::domain() * H::domain(),
    decreases n,
{
    H::lemma_domain();
    let m = H::domain();
    assert forall|x: int| view_below(cs, n).contains(x) implies 0 <= x < m * m by {
        let p = choose|p: int| 0 <= p < n && p < cs.len() && keeps(cs[p], x);
        cs[p].lemma_view();
        cs[p].spec_key().lemma_val(cs[p].spec_key());
        lemma_parts(m, x);
        assert((x / m) * m <= m * m - m) by (nonlinear_arith)
            requires
                x / m <= m - 1,
                m > 0,
        ;
    }
    if n == 0 {
        assert(view_below(cs, n) =~= Set::<int>::empty());
    } else {
        lemma_total(cs, n - 1);
        let c = cs[n - 1];
        let lifted = Set::new(|x: int| keeps(c, x));
        lemma_lifted(c);
        assert(view_below(cs, n) =~= view_below(cs, n - 1).union(lifted));
        assert(view_below(cs, n - 1).disjoint(lifted)) by {
            assert forall|x: int| !(view_below(cs, n - 1).contains(x) && lifted.contains(x)) by {
                if view_below(cs, n - 1).contains(x) && lifted.contains(x) {
                    let p = choose|p: int| 0 <= p < n - 1 && p < cs.len() && keeps(cs[p], x);
                    lemma_one_per_key(cs, p, n - 1);
                }
            }
        }
        vstd::set_lib::lemma_set_disjoint_lens(view_below(cs, n - 1), lifted);
    }
    vstd::set_lib::lemma_int_range(0, m * m);
    vstd::set_lib::lemma_len_subset(view_below(cs, n), vstd::set_lib::set_int_range(0, m * m));
}

/// Replacing the container at `at` by one with the same key changes what
/// is held only among the numbers with that key, and there as the
/// container changed. In particular, where the new container has one
/// value more or less than the old one, so has the whole.
pub proof fn lemma_replaced<H: ExtInt>(
    before: Seq<Container<H>>,
    after: Seq<Container<H>>,
    at: int,
    v: int,
)
    requires
        keys_increasing(before),
        0 <= at < before.len(),
        after =~= before.update(at, after[at]),
        after[at].spec_key() == before[at].spec_key(),
        before[at].spec_key().val() == v / H::domain(),
    ensures
        after[at]@ == before[at]@.insert(v % H::domain()) ==> view_of(after) =~= view_of(
            before,
        ).insert(v),
        after[at]@ == before[at]@.remove(v % H::domain()) ==> view_of(after) =~= view_of(
            before,
        ).remove(v),
{
    H::lemma_domain();
    let m = H::domain();
    lemma_parts(m, v);
    assert forall|i: int, j: int| 0 <= i < j < after.len() implies after[i].spec_key().val()
        < after[j].spec_key().val() by {
        assert(before[i].spec_key().val() < before[j].spec_key().val());
    }
    assert forall|x: int| true implies (holds_below(after, after.len() as int, x) <==> if x / m
        == v / m {
        keeps(after[at], x)
    } else {
        holds_below(before, before.len() as int, x)
    }) && (holds_below(before, before.len() as int, x) <==> if x / m == v / m {
        keeps(before[at], x)
    } else {
        holds_below(before, before.len() as int, x)
    }) by {
        lemma_parts(m, x);
        if holds_below(after, after.len() as int, x) {
            let p = choose|p: int| 0 <= p < after.len() && p < after.len() && keeps(after[p], x);
            if x / m == v / m {
                lemma_one_per_key(after, p, at);
            } else {
                assert(after[p] == before[p]);
                assert(keeps(before[p], x));
            }
        }
        if holds_below(before, before.len() as int, x) {
            let p = choose|p: int| 0 <= p < before.len() && p < before.len() && keeps(before[p], x);
            if x / m == v / m {
                lemma_one_per_key(before, p, at);
            } else {
                assert(after[p] == before[p]);
                assert(keeps(after[p], x));
            }
        }
        if x / m == v / m {
            if keeps(after[at], x) {
                assert(keeps(after[at], x));
            }
            if keeps(before[at], x) {
                assert(keeps(before[at], x));
            }
        }
    }
    if after[at]@ == before[at]@.insert(v % m) {
        assert forall|x: int| view_of(after).contains(x) <==> view_of(before).insert(v).contains(
            x,
        ) by {
            lemma_parts(m, x);
        }
    }
    if after[at]@ == before[at]@.remove(v % m) {
        assert forall|x: int| view_of(after).contains(x) <==> view_of(before).remove(v).contains(
            x,
        ) by {
            lemma_parts(m, x);
        }
    }
}

/// Putting a valid container that holds a value in at the place that its
/// key asks for keeps the containers valid and in key order, and adds
/// what it holds to what they hold.
pub proof fn lemma_added<H: ExtInt>(before: Seq<Container<H>>, after: Seq<Container<H>>, at: int)
    requires
        all_valid(before),
        keys_increasing(before),
        0 <= at <= before.len(),
        after =~= before.insert(at, after[at]),
        after[at].wf(),
        after[at]@.len() > 0,
        forall|p: int|
            0 <= p < at ==> (#[trigger] before[p]).spec_key().val() < after[at].spec_key().val(),
        forall|p: int|
            at <= p < before.len() ==> after[at].spec_key().val() < (
            #[trigger] before[p]).spec_key().val(),
    ensures
        all_valid(after),
        keys_increasing(after),
        forall|x: int|
            view_of(after).contains(x) <==> view_of(before).contains(x) || keeps(after[at], x),
{
    assert forall|i: int| 0 <= i < after.len() implies (#[trigger] after[i]).wf() && after[i]@.len()
        > 0 by {
        if i < at {
            assert(after[i] == before[i]);
        } else if i > at {
            assert(after[i] == before[i - 1]);
        }
    }
    assert forall|i: int, j: int| 0 <= i < j < after.len() implies after[i].spec_key().val()
        < after[j].spec_key().val() by {
        let pi = if i < at { i } else { i - 1 };
        let pj = if j < at { j } else { j - 1 };
        if i != at && j != at {
            assert(after[i] == before[pi]);
            assert(after[j] == before[pj]);
            assert(before[pi].spec_key().val() < before[pj].spec_key().val());
        } else if i == at {
            assert(after[j] == before[pj]);
        } else {
            assert(after[i] == before[pi]);
        }
    }
    assert forall|x: int|
        view_of(after).contains(x) <==> view_of(before).contains(x) || keeps(after[at], x) by {
        if view_of(after).contains(x) {
            let p = choose|p: int| 0 <= p < after.len() && p < after.len() && keeps(after[p], x);
            if p < at {
                assert(keeps(before[p], x));
            } else if p > at {
                assert(keeps(before[p - 1], x));
            }
        }
        if view_of(before).contains(x) {
            let p = choose|p: int| 0 <= p < before.len() && p < before.len() && keeps(before[p], x);
            if p < at {
                assert(keeps(after[p], x));
            } else {
                assert(after[p + 1] == before[p]);
                assert(keeps(after[p + 1], x));
            }
        }
        if keeps(after[at], x) {
            assert(view_of(after).contains(x));
        }
    }
}

/// Taking a container out keeps the others valid and in key order, and
/// takes what it held out of what they hold.
pub proof fn lemma_dropped<H: ExtInt>(before: Seq<Container<H>>, after: Seq<Container<H>>, at: int)
    requires
        keys_increasing(before),
        forall|i: int|
            0 <= i < before.len() && i != at ==> (#[trigger] before[i]).wf() && before[i]@.len()
                > 0,
        0 <= at < before.len(),
        after =~= before.remove(at),
    ensures
        all_valid(after),
        keys_increasing(after),
        forall|x: int|
            view_of(after).contains(x) <==> view_of(before).contains(x) && !keeps(before[at], x),
{
    assert forall|i: int| 0 <= i < after.len() implies (#[trigger] after[i]).wf() && after[i]@.len()
        > 0 by {
        if i < at {
            assert(after[i] == before[i]);
        } else {
            assert(after[i] == before[i + 1]);
        }
    }
    assert forall|i: int, j: int| 0 <= i < j < after.len() implies after[i].spec_key().val()
        < after[j].spec_key().val() by {
        let pi = if i < at { i } else { i + 1 };
        let pj = if j < at { j } else { j + 1 };
        assert(after[i] == before[pi]);
        assert(after[j] == before[pj]);
        assert(before[pi].spec_key().val() < before[pj].spec_key().val());
    }
    assert forall|x: int|
        view_of(after).contains(x) <==> view_of(before).contains(x) && !keeps(before[at], x) by {
        if view_of(after).contains(x) {
            let p = choose|p: int| 0 <= p < after.len() && p < after.len() && keeps(after[p], x);
            let q = if p < at { p } else { p + 1 };
            assert(after[p] == before[q]);
            assert(keeps(before[q], x));
            if keeps(before[at], x) {
                lemma_one_per_key(before, q, at);
            }
        }
        if view_of(before).contains(x) && !keeps(before[at], x) {
            let p = choose|p: int| 0 <= p < before.len() && p < before.len() && keeps(before[p], x);
            if p < at {
                assert(keeps(after[p], x));
            } else {
                assert(after[p - 1] == before[p]);
                assert(keeps(after[p - 1], x));
            }
        }
    }
}

/// A compressed set of unsigned integers of one width: the containers of
/// its values in key order. A container is dropped as soon as it holds no
/// value, so that a set is empty exactly where it has no container.
#[derive(Debug, PartialEq)]
pub struct RoaringBitmap<Size: Halveable> {
    containers: Vec<Container<Size::HalfSize>>,
}

impl<Size: Halveable> View for RoaringBitmap<Size> {
    type V = Set<int>;

    /// The set of numbers that the bitmap holds.
    open spec fn view(&self) -> Set<int> {
        view_of(self.spec_containers())
    }
}

impl<Size: Halveable> RoaringBitmap<Size> {
    /// The containers of the set, in key order.
    pub closed spec fn spec_containers(&self) -> Seq<Container<Size::HalfSize>> {
        self.containers@
    }

    /// Whether the set is in a valid state: each container is valid and
    /// holds a value, and the keys are strictly increasing.
    pub open spec fn wf(&self) -> bool {
        &&& all_valid(self.spec_containers())
        &&& keys_increasing(self.spec_containers())
    }

    /// A valid set holds finitely many numbers, all of the width.
    pub proof fn lemma_view(&self)
        requires
            self.wf(),
        ensures
            self@.finite(),
            self@.len() <= Size::domain(),
            self@.len() == total(self.spec_containers(), self.spec_containers().len() as int),
            forall|x: int| self@.contains(x) ==> 0 <= x < Size::domain(),
    {
        Size::lemma_halves();
        lemma_total(self.spec_containers(), self.spec_containers().len() as int);
    }

    /// Whether two sets have the same containers: as many, and each the
    /// same as the one at its place.
    pub open spec fn same_as(&self, other: &Self) -> bool {
        &&& self.spec_containers().len() == other.spec_containers().len()
        &&& forall|i: int|
            0 <= i < self.spec_containers().len() ==> (#[trigger] self.spec_containers()[i]).same_as(
                &other.spec_containers()[i],
            )
    }

    /// Sets with the same containers hold the same numbers, and one is
    /// valid where the other is.
    pub proof fn lemma_same(&self, other: &Self)
        requires
            self.same_as(other),
        ensures
            self@ == other@,
            self.wf() == other.wf(),
    {
        let s = self.spec_containers();
        let t = other.spec_containers();
        assert forall|i: int| 0 <= i < s.len() implies (#[trigger] s[i]).spec_key() == t[i].spec_key()
            && s[i]@ == t[i]@ && s[i].wf() == t[i].wf() by {
            assert(s[i].same_as(&t[i]));
        }
        assert forall|x: int| self@.contains(x) <==> other@.contains(x) by {
            if self@.contains(x) {
                let p = choose|p: int| 0 <= p < s.len() && p < s.len() && keeps(s[p], x);
                assert(keeps(t[p], x));
            }
            if other@.contains(x) {
                let p = choose|p: int| 0 <= p < t.len() && p < t.len() && keeps(t[p], x);
                assert(s[p].same_as(&t[p]));
                assert(keeps(s[p], x));
            }
        }
        assert(self@ =~= other@);
        if self.wf() {
            assert forall|i: int| 0 <= i < t.len() implies (#[trigger] t[i]).wf() && t[i]@.len()
                > 0 by {
                assert(s[i].same_as(&t[i]));
            }
            assert forall|i: int, j: int| 0 <= i < j < t.len() implies t[i].spec_key().val()
                < t[j].spec_key().val() by {
                assert(s[i].same_as(&t[i]));
                assert(s[j].same_as(&t[j]));
                assert(s[i].spec_key().val() < s[j].spec_key().val());
            }
        }
        if other.wf() {
            assert forall|i: int| 0 <= i < s.len() implies (#[trigger] s[i]).wf() && s[i]@.len()
                > 0 by {
                assert(s[i].same_as(&t[i]));
            }
            assert forall|i: int, j: int| 0 <= i < j < s.len() implies s[i].spec_key().val()
                < s[j].spec_key().val() by {
                assert(s[i].same_as(&t[i]));
                assert(s[j].same_as(&t[j]));
                assert(t[i].spec_key().val() < t[j].spec_key().val());
            }
        }
    }

    /// An empty set.
    pub fn new() -> (r: Self)
        ensures
            r.wf(),
            r@ == Set::<int>::empty(),
    {
        let r = RoaringBitmap { containers: Vec::new() };
        proof {
            assert(r@ =~= Set::<int>::empty());
        }
        r
    }

    /// Looks `key` up among the containers: `Ok` with the place of the
    /// container that has it, `Err` with the place at which a container
    /// for it would have to be inserted.
    fn find(&self, key: Size::HalfSize) -> (r: Result<usize, usize>)
        requires
            keys_increasing(self.containers@),
        ensures
            match r {
                Ok(at) => at < self.containers.len() && self.containers[at as int].spec_key().val()
                    == key.val(),
                Err(at) => {
                    &&& at <= self.containers.len()
                    &&& forall|p: int|
                        0 <= p < at ==> (#[trigger] self.containers[p]).spec_key().val()
                            < key.val()
                    &&& forall|p: int|
                        at <= p < self.containers.len() ==> key.val() < (
                        #[trigger] self.containers[p]).spec_key().val()
                },
            },
    {
        let target: u64 = key.to64();
        let mut lo: usize = 0;
        let mut hi: usize = self.containers.len();
        while lo < hi
            invariant
                0 <= lo <= hi <= self.containers.len(),
                target == key.val(),
                keys_increasing(self.containers@),
                forall|p: int|
                    0 <= p < lo ==> (#[trigger] self.containers[p]).spec_key().val() < target,
                forall|p: int|
                    hi <= p < self.containers.len() ==> target < (
                    #[trigger] self.containers[p]).spec_key().val(),
            decreases hi - lo,
        {
            let mid: usize = lo + (hi - lo) / 2;
            let probe: u64 = self.containers[mid].key().to64();
            if probe == target {
                return Ok(mid);
            } else if probe < target {
                proof {
                    assert forall|p: int| 0 <= p < mid + 1 implies (
                    #[trigger] self.containers[p]).spec_key().val() < target by {
                        if p < mid {
                            assert(self.containers[p].spec_key().val() < self.containers[mid as int].spec_key().val());
                        }
                    }
                }
                lo = mid + 1;
            } else {
                proof {
                    assert forall|p: int| mid <= p < self.containers.len() implies target < (
                    #[trigger] self.containers[p]).spec_key().val() by {
                        if mid < p {
                            assert(self.containers[mid as int].spec_key().val() < self.containers[p].spec_key().val());
                        }
                    }
                }
                hi = mid;
            }
        }
        Err(lo)
    }

    /// Whether the set holds `value`.
    pub fn contains(&self, value: Size) -> (r: bool)
        requires
            self.wf(),
        ensures
            r == self@.contains(value.val()),
    {
        let (key, low) = value.split();
        match self.find(key) {
            Ok(at) => {
                let r = self.containers[at].contains(low);
                proof {
                    let cs = self.containers@;
                    if self@.contains(value.val()) {
                        let p = choose|p: int|
                            0 <= p < cs.len() && p < cs.len() && keeps(cs[p], value.val());
                        lemma_one_per_key(cs, p, at as int);
                    }
                    if r {
                        assert(keeps(cs[at as int], value.val()));
                    }
                }
                r
            },
            Err(at) => {
                proof {
                    let cs = self.containers@;
                    if self@.contains(value.val()) {
                        let p = choose|p: int|
                            0 <= p < cs.len() && p < cs.len() && keeps(cs[p], value.val());
                        assert(cs[p].spec_key().val() == key.val());
                    }
                }
                false
            },
        }
    }

    /// Adds `value` to the set. Returns whether it was absent before.
    pub fn insert(&mut self, value: Size) -> (r: bool)
        requires
            old(self).wf(),
        ensures
            final(self).wf(),
            final(self)@ == old(self)@.insert(value.val()),
            r == !old(self)@.contains(value.val()),
    {
        let (key, low) = value.split();
        let ghost before = self.containers@;
        let ghost m = Size::HalfSize::domain();
        proof {
            Size::HalfSize::lemma_domain();
            Size::lemma_halves();
            lemma_parts(m, value.val());
        }
        match self.find(key) {
            Ok(at) => {
                let r = self.containers[at].insert(low);
                proof {
                    let after = self.containers@;
                    let c = after[at as int];
                    assert(after =~= before.update(at as int, c));
                    c.lemma_view();
                    assert(c@.contains(low.val()));
                    assert forall|i: int| 0 <= i < after.len() implies (#[trigger] after[i]).wf()
                        && after[i]@.len() > 0 by {
                        if i != at {
                            assert(after[i] == before[i]);
                        }
                    }
                    assert forall|i: int, j: int| 0 <= i < j < after.len() implies after[i].spec_key().val()
                        < after[j].spec_key().val() by {
                        assert(before[i].spec_key().val() < before[j].spec_key().val());
                    }
                    lemma_replaced(before, after, at as int, value.val());
                    assert(self@ =~= old(self)@.insert(value.val()));
                }
                r
            },
            Err(at) => {
                let mut c = Container::new(key);
                c.insert(low);
                proof {
                    c.lemma_view();
                    assert(c@.contains(low.val()));
                }
                self.containers.insert(at, c);
                proof {
                    let after = self.containers@;
                    assert(after =~= before.insert(at as int, c));
                    lemma_added(before, after, at as int);
                    assert forall|x: int| self@.contains(x) <==> old(self)@.insert(
                        value.val(),
                    ).contains(x) by {
                        if keeps(c, x) {
                            lemma_parts(m, x);
                        }
                    }
                    assert(self@ =~= old(self)@.insert(value.val()));
                    if old(self)@.contains(value.val()) {
                        let p = choose|p: int|
                            0 <= p < before.len() && p < before.len() && keeps(
                                before[p],
                                value.val(),
                            );
                        assert(before[p].spec_key().val() == key.val());
                    }
                }
                true
            },
        }
    }

    /// Takes `value` out of the set. Returns whether it was present. A
    /// container that is left without values is dropped.
    pub fn remove(&mut self, value: Size) -> (r: bool)
        requires
            old(self).wf(),
        ensures
            final(self).wf(),
            final(self)@ == old(self)@.remove(value.val()),
            r == old(self)@.contains(value.val()),
    {
        let (key, low) = value.split();
        let ghost before = self.containers@;
        let ghost m = Size::HalfSize::domain();
        proof {
            Size::HalfSize::lemma_domain();
            lemma_parts(m, value.val());
        }
        match self.find(key) {
            Ok(at) => {
                let r = self.containers[at].remove(low);
                let ghost middle = self.containers@;
                proof {
                    let c = middle[at as int];
                    assert(middle =~= before.update(at as int, c));
                    lemma_replaced(before, middle, at as int, value.val());
                    assert forall|i: int, j: int| 0 <= i < j < middle.len() implies middle[i].spec_key().val()
                        < middle[j].spec_key().val() by {
                        assert(before[i].spec_key().val() < before[j].spec_key().val());
                    }
                    assert forall|i: int| 0 <= i < middle.len() && i != at implies (
                    #[trigger] middle[i]).wf() && middle[i]@.len() > 0 by {
                        assert(middle[i] == before[i]);
                    }
                    assert(view_of(middle) =~= old(self)@.remove(value.val()));
                }
                if self.containers[at].len() == 0 {
                    self.containers.remove(at);
                    proof {
                        let after = self.containers@;
                        let c = middle[at as int];
                        c.lemma_view();
                        assert(c@ =~= Set::<int>::empty());
                        assert(after =~= middle.remove(at as int));
                        lemma_dropped(middle, after, at as int);
                        assert(self@ =~= view_of(middle));
                    }
                }
                r
            },
            Err(at) => {
                proof {
                    if old(self)@.contains(value.val()) {
                        let p = choose|p: int|
                            0 <= p < before.len() && p < before.len() && keeps(
                                before[p],
                                value.val(),
                            );
                        assert(before[p].spec_key().val() == key.val());
                    }
                    assert(old(self)@.remove(value.val()) =~= old(self)@);
                }
                false
            },
        }
    }

    /// Takes every value out of the set.
    pub fn clear(&mut self)
        ensures
            final(self).wf(),
            final(self)@ == Set::<int>::empty(),
    {
        self.containers.clear();
        proof {
            assert(self@ =~= Set::<int>::empty());
        }
    }

    /// Whether the set holds no value.
    pub fn is_empty(&self) -> (r: bool)
        requires
            self.wf(),
        ensures
            r == (self@ == Set::<int>::empty()),
            r == (self@.len() == 0),
    {
        proof {
            self.lemma_view();
            let cs = self.containers@;
            if cs.len() > 0 {
                cs[0].lemma_view();
                let l = cs[0]@.choose();
                vstd::set::axiom_set_choose_len(cs[0]@);
                assert(cs[0]@.contains(l));
                let x = cs[0].spec_key().val() * Size::HalfSize::domain() + l;
                Size::HalfSize::lemma_domain();
                lemma_joined(Size::HalfSize::domain(), cs[0].spec_key().val(), l);
                assert(keeps(cs[0], x));
                assert(self@.contains(x));
            } else {
                assert(self@ =~= Set::<int>::empty());
            }
        }
        self.containers.is_empty()
    }

    /// The number of values in the set, for a set whose number of values
    /// fits in 64 bits, as that of every set of a width of less than 64
    /// bits does.
    pub fn len(&self) -> (r: u64)
        requires
            self.wf(),
            Size::domain() <= u64::MAX || self@.len() <= u64::MAX,
        ensures
            r == self@.len(),
    {
        proof {
            self.lemma_view();
        }
        let mut size: u64 = 0;
        let mut i: usize = 0;
        while i < self.containers.len()
            invariant
                0 <= i <= self.containers.len(),
                self.wf(),
                size == total(self.containers@, i as int),
                total(self.containers@, self.containers@.len() as int) <= u64::MAX,
            decreases self.containers.len() - i,
        {
            proof {
                lemma_total_grows(self.containers@, i + 1, self.containers@.len() as int);
            }
            size = size + self.containers[i].len();
            i = i + 1;
        }
        size
    }

    /// The number of values in the set, or `None` where it does not fit in
    /// 64 bits.
    pub fn checked_len(&self) -> (r: Option<u64>)
        requires
            self.wf(),
        ensures
            match r {
                Some(n) => n == self@.len(),
                None => self@.len() > u64::MAX,
            },
    {
        proof {
            self.lemma_view();
        }
        let mut size: u64 = 0;
        let mut i: usize = 0;
        while i < self.containers.len()
            invariant
                0 <= i <= self.containers.len(),
                self.wf(),
                size == total(self.containers@, i as int),
                self@.len() == total(self.containers@, self.containers@.len() as int),
            decreases self.containers.len() - i,
        {
            let more: u64 = self.containers[i].len();
            if more > u64::MAX - size {
                proof {
                    lemma_total_grows(self.containers@, i + 1, self.containers@.len() as int);
                }
                return None;
            }
            size = size + more;
            i = i + 1;
        }
        Some(size)
    }
}

impl<Size: Halveable> Clone for RoaringBitmap<Size> {
    /// A set with the same containers.
    fn clone(&self) -> (r: Self)
        ensures
            r.same_as(self),
    {
        let mut containers: Vec<Container<Size::HalfSize>> = Vec::new();
        let mut i: usize = 0;
        while i < self.containers.len()
            invariant
                0 <= i <= self.containers.len(),
                containers@.len() == i,
                forall|p: int|
                    0 <= p < i ==> (#[trigger] containers@[p]).same_as(&self.containers@[p]),
            decreases self.containers.len() - i,
        {
            containers.push(self.containers[i].clone());
            i = i + 1;
        }
        RoaringBitmap { containers: containers }
    }
}

/// The values under the next key to settle: those of the container at
/// `at`, where `present` says that it has that key, and none where not.
pub open spec fn side<H: ExtInt>(cs: Seq<Container<H>>, at: int, present: bool) -> Set<int> {
    if present {
        cs[at]@
    } else {
        Set::empty()
    }
}

/// The state of a pass that makes of the containers `a` what `op` makes of
/// them and the containers `b`: `c` is what has become of `a` so far. All
/// keys below `bound` are settled. They are those of the first `k`
/// containers of `a` and of the first `j` of `b`, and the first `i`
/// containers of `c` are what they leave; the rest of `c` is the rest of
/// `a`, still to be looked at.
pub open spec fn merging<H: ExtInt>(
    op: SetOp,
    a: Seq<Container<H>>,
    b: Seq<Container<H>>,
    c: Seq<Container<H>>,
    i: int,
    j: int,
    k: int,
    bound: int,
) -> bool {
    &&& all_valid(c)
    &&& keys_increasing(c)
    &&& 0 <= i <= c.len()
    &&& 0 <= j <= b.len()
    &&& 0 <= k <= a.len()
    &&& c.len() - i == a.len() - k
    &&& forall|p: int| i <= p < c.len() ==> #[trigger] c[p] == a[p - i + k]
    &&& forall|p: int| 0 <= p < i ==> (#[trigger] c[p]).spec_key().val() < bound
    &&& forall|p: int| 0 <= p < a.len() ==> ((#[trigger] a[p]).spec_key().val() < bound <==> p < k)
    &&& forall|p: int| 0 <= p < b.len() ==> ((#[trigger] b[p]).spec_key().val() < bound <==> p < j)
    &&& forall|x: int|
        x / H::domain() < bound ==> (#[trigger] holds_below(c, i, x) <==> op.member(
            view_of(a).contains(x),
            view_of(b).contains(x),
        ))
}

/// One step of the pass settles the smallest key that is left. `left` and
/// `right` say which side has it. `d` is `c` after the step: the container
/// of `c` with that key is gone from its place, and where `kept` is set a
/// container with what `op` makes of the two sides stands there.
pub proof fn lemma_merge_step<H: ExtInt>(
    op: SetOp,
    a: Seq<Container<H>>,
    b: Seq<Container<H>>,
    c: Seq<Container<H>>,
    d: Seq<Container<H>>,
    i: int,
    j: int,
    k: int,
    bound: int,
    left: bool,
    right: bool,
    kept: bool,
)
    requires
        all_valid(a),
        keys_increasing(a),
        all_valid(b),
        keys_increasing(b),
        merging(op, a, b, c, i, j, k, bound),
        left || right,
        left ==> i < c.len(),
        right ==> j < b.len(),
        left && right ==> c[i].spec_key().val() == b[j].spec_key().val(),
        left && !right && j < b.len() ==> c[i].spec_key().val() < b[j].spec_key().val(),
        right && !left && i < c.len() ==> b[j].spec_key().val() < c[i].spec_key().val(),
        d.len() == c.len() - (if left { 1int } else { 0 }) + (if kept { 1int } else { 0 }),
        forall|p: int| #![trigger d[p]] #![trigger c[p]] 0 <= p < i ==> d[p] == c[p],
        forall|q: int|
            i + (if kept { 1int } else { 0 }) <= q < d.len() ==> #[trigger] d[q] == c[q - (if kept {
                1int
            } else {
                0
            }) + (if left { 1int } else { 0 })],
        kept ==> {
            &&& d[i].wf()
            &&& d[i]@.len() > 0
            &&& d[i].spec_key().val() == (if left {
                c[i].spec_key().val()
            } else {
                b[j].spec_key().val()
            })
            &&& d[i]@ == op.set(side(c, i, left), side(b, j, right))
        },
        !kept ==> op.set(side(c, i, left), side(b, j, right)) == Set::<int>::empty(),
    ensures
        merging(
            op,
            a,
            b,
            d,
            i + (if kept { 1int } else { 0 }),
            j + (if right { 1int } else { 0 }),
            k + (if left { 1int } else { 0 }),
            (if left { c[i].spec_key().val() } else { b[j].spec_key().val() }) + 1,
        ),
{
    H::lemma_domain();
    let m = H::domain();
    let kk = if left { c[i].spec_key().val() } else { b[j].spec_key().val() };
    let dl: int = if left { 1 } else { 0 };
    let dk: int = if kept { 1 } else { 0 };
    let dr: int = if right { 1 } else { 0 };
    let i2 = i + dk;
    let j2 = j + dr;
    let k2 = k + dl;
    if i < c.len() {
        assert(c[i] == a[k]);
    }
    assert(kk >= bound);
    // where each container of `d` comes from
    assert forall|q: int| i2 <= q < d.len() implies (#[trigger] d[q]).spec_key().val() > kk
        && d[q].wf() && d[q]@.len() > 0 && d[q] == a[q - i2 + k2] by {
        let p = q - dk + dl;
        assert(d[q] == c[p]);
        assert(c[p] == a[p - i + k]);
        if left {
            assert(c[i].spec_key().val() < c[p].spec_key().val());
        } else {
            if i < p {
                assert(c[i].spec_key().val() < c[p].spec_key().val());
            }
        }
    }
    assert forall|q: int| 0 <= q < d.len() implies (#[trigger] d[q]).wf() && d[q]@.len() > 0 by {
        if q < i {
            assert(d[q] == c[q]);
        }
    }
    assert forall|q1: int, q2: int| 0 <= q1 < q2 < d.len() implies d[q1].spec_key().val()
        < d[q2].spec_key().val() by {
        if q2 < i {
            assert(d[q1] == c[q1] && d[q2] == c[q2]);
            assert(c[q1].spec_key().val() < c[q2].spec_key().val());
        } else if q1 < i {
            assert(d[q1] == c[q1]);
            assert(c[q1].spec_key().val() < bound);
        } else if q1 >= i2 {
            let lower = q1 - dk + dl;
            let upper = q2 - dk + dl;
            assert(d[q1] == c[lower] && d[q2] == c[upper]);
            assert(c[lower].spec_key().val() < c[upper].spec_key().val());
        }
    }
    assert forall|p: int| 0 <= p < i2 implies (#[trigger] d[p]).spec_key().val() < kk + 1 by {
        if p < i {
            assert(d[p] == c[p]);
        }
    }
    assert forall|p: int| 0 <= p < a.len() implies ((#[trigger] a[p]).spec_key().val() < kk + 1
        <==> p < k2) by {
        if p > k {
            assert(a[k].spec_key().val() < a[p].spec_key().val());
        }
    }
    assert forall|p: int| 0 <= p < b.len() implies ((#[trigger] b[p]).spec_key().val() < kk + 1
        <==> p < j2) by {
        if p > j {
            assert(b[j].spec_key().val() < b[p].spec_key().val());
        }
    }
    let sa = side(c, i, left);
    let sb = side(b, j, right);
    op.lemma_set(sa, sb);
    assert forall|x: int| x / m < kk + 1 implies (#[trigger] holds_below(d, i2, x) <==> op.member(
        view_of(a).contains(x),
        view_of(b).contains(x),
    )) by {
        if x / m < bound {
            if holds_below(d, i2, x) {
                let q = choose|q: int| 0 <= q < i2 && q < d.len() && keeps(d[q], x);
                assert(d[q] == c[q]);
                assert(keeps(c[q], x));
            }
            if holds_below(c, i, x) {
                let p = choose|p: int| 0 <= p < i && p < c.len() && keeps(c[p], x);
                assert(d[p] == c[p]);
                assert(keeps(d[p], x));
            }
        } else {
            let l = x % m;
            // the settled part of `d`
            if holds_below(d, i2, x) {
                let q = choose|q: int| 0 <= q < i2 && q < d.len() && keeps(d[q], x);
                if q < i {
                    assert(d[q] == c[q]);
                    assert(c[q].spec_key().val() < bound);
                }
                assert(kept && x / m == kk && d[i]@.contains(l));
            }
            if kept && x / m == kk && d[i]@.contains(l) {
                assert(keeps(d[i], x));
            }
            // `a`
            if view_of(a).contains(x) {
                let p = choose|p: int| 0 <= p < a.len() && p < a.len() && keeps(a[p], x);
                if p > k {
                    assert(a[k].spec_key().val() < a[p].spec_key().val());
                }
                assert(left && x / m == kk && sa.contains(l));
            }
            if left && x / m == kk && sa.contains(l) {
                assert(keeps(a[k], x));
            }
            // `b`
            if view_of(b).contains(x) {
                let p = choose|p: int| 0 <= p < b.len() && p < b.len() && keeps(b[p], x);
                if p > j {
                    assert(b[j].spec_key().val() < b[p].spec_key().val());
                }
                assert(right && x / m == kk && sb.contains(l));
            }
            if right && x / m == kk && sb.contains(l) {
                assert(keeps(b[j], x));
            }
            if x / m == kk {
                assert(op.set(sa, sb).contains(l) == op.member(sa.contains(l), sb.contains(l)));
            }
        }
    }
}

/// Once both sides are used up, the pass has made of `a` what `op` makes
/// of `a` and `b`.
pub proof fn lemma_merge_end<H: ExtInt>(
    op: SetOp,
    a: Seq<Container<H>>,
    b: Seq<Container<H>>,
    c: Seq<Container<H>>,
    k: int,
    bound: int,
)
    requires
        merging(op, a, b, c, c.len() as int, b.len() as int, k, bound),
    ensures
        view_of(c) =~= op.set(view_of(a), view_of(b)),
{
    let m = H::domain();
    op.lemma_set(view_of(a), view_of(b));
    assert forall|x: int| view_of(c).contains(x) <==> op.member(
        view_of(a).contains(x),
        view_of(b).contains(x),
    ) by {
        if x / m < bound {
            assert(holds_below(c, c.len() as int, x) <==> op.member(
                view_of(a).contains(x),
                view_of(b).contains(x),
            ));
        } else {
            if view_of(c).contains(x) {
                let p = choose|p: int| 0 <= p < c.len() && p < c.len() && keeps(c[p], x);
                assert(c[p].spec_key().val() < bound);
            }
            if view_of(a).contains(x) {
                let p = choose|p: int| 0 <= p < a.len() && p < a.len() && keeps(a[p], x);
                assert(a[p].spec_key().val() < bound);
            }
            if view_of(b).contains(x) {
                let p = choose|p: int| 0 <= p < b.len() && p < b.len() && keeps(b[p], x);
                assert(b[p].spec_key().val() < bound);
            }
        }
    }
}

impl<Size: Halveable> RoaringBitmap<Size> {
    /// Makes of this set what `op` makes of it and `other`, in one pass
    /// over the containers of both in key order. A key that both have is
    /// settled by the containers; a key that one has is kept or not as
    /// `op` says; a container that is left without values is dropped.
    pub fn merge_with(&mut self, op: SetOp, other: &Self)
        requires
            old(self).wf(),
            other.wf(),
        ensures
            final(self).wf(),
            final(self)@ == op.set(old(self)@, other@),
    {
        let ghost a = self.containers@;
        let ghost b = other.containers@;
        let ghost mut k: int = 0;
        let ghost mut bound: int = 0;
        let mut i: usize = 0;
        let mut j: usize = 0;
        let keep_left = op.keeps_first();
        let keep_right = op.keeps_second();
        proof {
            lemma_walk_begin(a, b);
            assert forall|x: int| x / Size::HalfSize::domain() < 0 implies (#[trigger] holds_below(
                a,
                0,
                x,
            ) <==> op.member(view_of(a).contains(x), view_of(b).contains(x))) by {}
        }
        while i < self.containers.len() || j < other.containers.len()
            invariant
                b == other.containers@,
                all_valid(a),
                keys_increasing(a),
                all_valid(b),
                keys_increasing(b),
                keep_left == op.member(true, false),
                keep_right == op.member(false, true),
                merging(op, a, b, self.containers@, i as int, j as int, k, bound),
            decreases (self.containers.len() - i) + (other.containers.len() - j),
        {
            let ghost c = self.containers@;
            let has_left: bool = i < self.containers.len();
            let has_right: bool = j < other.containers.len();
            let left_key: u64 = if has_left {
                self.containers[i].key().to64()
            } else {
                0
            };
            let right_key: u64 = if has_right {
                other.containers[j].key().to64()
            } else {
                0
            };
            let left: bool = has_left && (!has_right || left_key <= right_key);
            let right: bool = has_right && (!has_left || right_key <= left_key);
            let ghost sa = side(c, i as int, left);
            let ghost sb = side(b, j as int, right);
            proof {
                op.lemma_set(sa, sb);
            }
            if left && right {
                self.containers[i].combine(op, &other.containers[j]);
                let ghost middle = self.containers@;
                proof {
                    assert(middle =~= c.update(i as int, middle[i as int]));
                    middle[i as int].lemma_view();
                }
                if self.containers[i].len() == 0 {
                    self.containers.remove(i);
                    proof {
                        let d = self.containers@;
                        assert(d =~= middle.remove(i as int));
                        assert(op.set(sa, sb) =~= Set::<int>::empty());
                        lemma_merge_step(op, a, b, c, d, i as int, j as int, k, bound, true, true, false);
                        bound = c[i as int].spec_key().val() + 1;
                        k = k + 1;
                    }
                } else {
                    proof {
                        lemma_merge_step(op, a, b, c, middle, i as int, j as int, k, bound, true, true, true);
                        bound = c[i as int].spec_key().val() + 1;
                        k = k + 1;
                    }
                    i = i + 1;
                }
                j = j + 1;
            } else if left {
                proof {
                    c[i as int].lemma_view();
                }
                if keep_left {
                    proof {
                        assert(op.set(sa, sb) =~= sa);
                        lemma_merge_step(op, a, b, c, c, i as int, j as int, k, bound, true, false, true);
                        bound = c[i as int].spec_key().val() + 1;
                        k = k + 1;
                    }
                    i = i + 1;
                } else {
                    self.containers.remove(i);
                    proof {
                        let d = self.containers@;
                        assert(d =~= c.remove(i as int));
                        assert(op.set(sa, sb) =~= Set::<int>::empty());
                        lemma_merge_step(op, a, b, c, d, i as int, j as int, k, bound, true, false, false);
                        bound = c[i as int].spec_key().val() + 1;
                        k = k + 1;
                    }
                }
            } else {
                if keep_right {
                    let copy = other.containers[j].clone();
                    self.containers.insert(i, copy);
                    proof {
                        let d = self.containers@;
                        assert(d =~= c.insert(i as int, copy));
                        assert(copy.same_as(&b[j as int]));
                        assert(op.set(sa, sb) =~= sb);
                        lemma_merge_step(op, a, b, c, d, i as int, j as int, k, bound, false, true, true);
                        bound = b[j as int].spec_key().val() + 1;
                    }
                    assert(i < self.containers.len());
                    i = i + 1;
                } else {
                    proof {
                        assert(op.set(sa, sb) =~= Set::<int>::empty());
                        lemma_merge_step(op, a, b, c, c, i as int, j as int, k, bound, false, true, false);
                        bound = b[j as int].spec_key().val() + 1;
                    }
                }
                j = j + 1;
            }
        }
        proof {
            lemma_merge_end(op, a, b, self.containers@, k, bound);
        }
    }

    /// Adds the values of `other` to this set.
    pub fn union_with(&mut self, other: &Self)
        requires
            old(self).wf(),
            other.wf(),
        ensures
            final(self).wf(),
            final(self)@ == old(self)@.union(other@),
    {
        self.merge_with(SetOp::Union, other)
    }

    /// Keeps the values of this set that are in `other` too.
    pub fn intersect_with(&mut self, other: &Self)
        requires
            old(self).wf(),
            other.wf(),
        ensures
            final(self).wf(),
            final(self)@ == old(self)@.intersect(other@),
    {
        self.merge_with(SetOp::Intersection, other)
    }

    /// Takes the values of `other` out of this set.
    pub fn difference_with(&mut self, other: &Self)
        requires
            old(self).wf(),
            other.wf(),
        ensures
            final(self).wf(),
            final(self)@ == old(self)@.difference(other@),
    {
        self.merge_with(SetOp::Difference, other)
    }

    /// Leaves in this set the values that are in exactly one of it and
    /// `other`.
    pub fn symmetric_difference_with(&mut self, other: &Self)
        requires
            old(self).wf(),
            other.wf(),
        ensures
            final(self).wf(),
            final(self)@ == symmetric_difference(old(self)@, other@),
    {
        self.merge_with(SetOp::SymmetricDifference, other)
    }

    /// A new set of the values that are in this set or in `other`.
    pub fn union(&self, other: &Self) -> (r: Self)
        requires
            self.wf(),
            other.wf(),
        ensures
            r.wf(),
            r@ == self@.union(other@),
    {
        let mut r = self.clone();
        proof {
            r.lemma_same(self);
        }
        r.union_with(other);
        r
    }

    /// A new set of the values that are in this set and in `other`.
    pub fn intersection(&self, other: &Self) -> (r: Self)
        requires
            self.wf(),
            other.wf(),
        ensures
            r.wf(),
            r@ == self@.intersect(other@),
    {
        let mut r = self.clone();
        proof {
            r.lemma_same(self);
        }
        r.intersect_with(other);
        r
    }

    /// A new set of the values that are in this set and not in `other`.
    pub fn difference(&self, other: &Self) -> (r: Self)
        requires
            self.wf(),
            other.wf(),
        ensures
            r.wf(),
            r@ == self@.difference(other@),
    {
        let mut r = self.clone();
        proof {
            r.lemma_same(self);
        }
        r.difference_with(other);
        r
    }

    /// A new set of the values that are in exactly one of this set and
    /// `other`.
    pub fn symmetric_difference(&self, other: &Self) -> (r: Self)
        requires
            self.wf(),
            other.wf(),
        ensures
            r.wf(),
            r@ == symmetric_difference(self@, other@),
    {
        let mut r = self.clone();
        proof {
            r.lemma_same(self);
        }
        r.symmetric_difference_with(other);
        r
    }
}

/// The state of a walk over the containers of two sets in key order: all
/// keys below `bound` have been looked at, which are those of the first
/// `i` containers of `a` and of the first `j` of `b`.
pub open spec fn walked<H: ExtInt>(
    a: Seq<Container<H>>,
    b: Seq<Container<H>>,
    i: int,
    j: int,
    bound: int,
) -> bool {
    &&& 0 <= i <= a.len()
    &&& 0 <= j <= b.len()
    &&& forall|p: int| 0 <= p < a.len() ==> ((#[trigger] a[p]).spec_key().val() < bound <==> p < i)
    &&& forall|p: int| 0 <= p < b.len() ==> ((#[trigger] b[p]).spec_key().val() < bound <==> p < j)
}

/// A walk begins with no key looked at.
pub proof fn lemma_walk_begin<H: ExtInt>(a: Seq<Container<H>>, b: Seq<Container<H>>)
    ensures
        walked(a, b, 0, 0, 0),
        forall|x: int| x / H::domain() < 0 ==> !view_of(a).contains(x) && !view_of(b).contains(x),
{
    assert forall|p: int| 0 <= p < a.len() implies !((#[trigger] a[p]).spec_key().val() < 0) by {
        a[p].spec_key().lemma_val(a[p].spec_key());
    }
    assert forall|p: int| 0 <= p < b.len() implies !((#[trigger] b[p]).spec_key().val() < 0) by {
        b[p].spec_key().lemma_val(b[p].spec_key());
    }
    assert forall|x: int| x / H::domain() < 0 implies !view_of(a).contains(x) && !view_of(
        b,
    ).contains(x) by {
        if view_of(a).contains(x) {
            let p = choose|p: int| 0 <= p < a.len() && p < a.len() && keeps(a[p], x);
            assert(!(a[p].spec_key().val() < 0));
        }
        if view_of(b).contains(x) {
            let p = choose|p: int| 0 <= p < b.len() && p < b.len() && keeps(b[p], x);
            assert(!(b[p].spec_key().val() < 0));
        }
    }
}

/// One step of a walk looks at the smallest key that is left. `left` and
/// `right` say which side has it. Of the numbers that the step settles,
/// each side holds those that its container with that key holds.
pub proof fn lemma_walk_step<H: ExtInt>(
    a: Seq<Container<H>>,
    b: Seq<Container<H>>,
    i: int,
    j: int,
    bound: int,
    left: bool,
    right: bool,
)
    requires
        keys_increasing(a),
        keys_increasing(b),
        walked(a, b, i, j, bound),
        left || right,
        left ==> i < a.len(),
        right ==> j < b.len(),
        left && right ==> a[i].spec_key().val() == b[j].spec_key().val(),
        left && !right && j < b.len() ==> a[i].spec_key().val() < b[j].spec_key().val(),
        right && !left && i < a.len() ==> b[j].spec_key().val() < a[i].spec_key().val(),
    ensures
        walked(
            a,
            b,
            i + (if left { 1int } else { 0 }),
            j + (if right { 1int } else { 0 }),
            (if left { a[i].spec_key().val() } else { b[j].spec_key().val() }) + 1,
        ),
        (if left { a[i].spec_key().val() } else { b[j].spec_key().val() }) >= bound,
        forall|x: int|
            bound <= x / H::domain() <= (if left {
                a[i].spec_key().val()
            } else {
                b[j].spec_key().val()
            }) ==> (#[trigger] view_of(a).contains(x) <==> left && keeps(a[i], x)),
        forall|x: int|
            bound <= x / H::domain() <= (if left {
                a[i].spec_key().val()
            } else {
                b[j].spec_key().val()
            }) ==> (#[trigger] view_of(b).contains(x) <==> right && keeps(b[j], x)),
{
    let m = H::domain();
    let kk = if left { a[i].spec_key().val() } else { b[j].spec_key().val() };
    assert forall|p: int| 0 <= p < a.len() implies ((#[trigger] a[p]).spec_key().val() < kk + 1
        <==> p < i + (if left { 1int } else { 0 })) by {
        if p > i {
            assert(a[i].spec_key().val() < a[p].spec_key().val());
        }
    }
    assert forall|p: int| 0 <= p < b.len() implies ((#[trigger] b[p]).spec_key().val() < kk + 1
        <==> p < j + (if right { 1int } else { 0 })) by {
        if p > j {
            assert(b[j].spec_key().val() < b[p].spec_key().val());
        }
    }
    assert forall|x: int| bound <= x / m <= kk implies (#[trigger] view_of(a).contains(x) <==> left
        && keeps(a[i], x)) by {
        if view_of(a).contains(x) {
            let p = choose|p: int| 0 <= p < a.len() && p < a.len() && keeps(a[p], x);
            if p > i {
                assert(a[i].spec_key().val() < a[p].spec_key().val());
            }
        }
        if left && keeps(a[i], x) {
            assert(view_of(a).contains(x));
        }
    }
    assert forall|x: int| bound <= x / m <= kk implies (#[trigger] view_of(b).contains(x) <==> right
        && keeps(b[j], x)) by {
        if view_of(b).contains(x) {
            let p = choose|p: int| 0 <= p < b.len() && p < b.len() && keeps(b[p], x);
            if p > j {
                assert(b[j].spec_key().val() < b[p].spec_key().val());
            }
        }
        if right && keeps(b[j], x) {
            assert(view_of(b).contains(x));
        }
    }
}

/// A side whose containers have all been looked at holds no number with
/// a high half that has not.
pub proof fn lemma_walk_end<H: ExtInt>(
    a: Seq<Container<H>>,
    b: Seq<Container<H>>,
    i: int,
    j: int,
    bound: int,
)
    requires
        walked(a, b, i, j, bound),
    ensures
        i == a.len() ==> forall|x: int| #[trigger]
            view_of(a).contains(x) ==> x / H::domain() < bound,
        j == b.len() ==> forall|x: int| #[trigger]
            view_of(b).contains(x) ==> x / H::domain() < bound,
{
    if i == a.len() {
        assert forall|x: int| #[trigger] view_of(a).contains(x) implies x / H::domain() < bound by {
            let p = choose|p: int| 0 <= p < a.len() && p < a.len() && keeps(a[p], x);
            assert(a[p].spec_key().val() < bound);
        }
    }
    if j == b.len() {
        assert forall|x: int| #[trigger] view_of(b).contains(x) implies x / H::domain() < bound by {
            let p = choose|p: int| 0 <= p < b.len() && p < b.len() && keeps(b[p], x);
            assert(b[p].spec_key().val() < bound);
        }
    }
}

impl<Size: Halveable> RoaringBitmap<Size> {
    /// The smallest value of the set that is no smaller than `from`.
    pub fn next_from(&self, from: Size) -> (r: Option<Size>)
        requires
            self.wf(),
        ensures
            is_next(self@, from.val(), val_of(r)),
    {
        let (key, low) = from.split();
        let ghost cs = self.containers@;
        let ghost m = Size::HalfSize::domain();
        proof {
            Size::HalfSize::lemma_domain();
            lemma_parts(m, from.val());
            low.lemma_val(low);
        }
        let start: usize = match self.find(key) {
            Ok(at) => {
                match self.containers[at].next_from(low) {
                    Some(l) => {
                        let v: Size = Size::join(key, l);
                        proof {
                            cs[at as int].lemma_view();
                            lemma_keeps(cs[at as int], l.val());
                            assert forall|x: int| self@.contains(x) && from.val() <= x implies v.val()
                                <= x by {
                                let p = choose|p: int|
                                    0 <= p < cs.len() && p < cs.len() && keeps(cs[p], x);
                                lemma_parts(m, x);
                                vstd::arithmetic::div_mod::lemma_div_is_ordered(from.val(), x, m);
                                if x / m == key.val() {
                                    lemma_one_per_key(cs, p, at as int);
                                } else {
                                    lemma_order(m, key.val(), l.val(), x / m, x % m);
                                }
                            }
                        }
                        return Some(v);
                    },
                    None => {
                        proof {
                            assert forall|p: int, x: int|
                                0 <= p < at + 1 && #[trigger] keeps(cs[p], x) implies x
                                < from.val() by {
                                lemma_parts(m, x);
                                cs[p].lemma_view();
                                if p < at {
                                    assert(cs[p].spec_key().val() < cs[at as int].spec_key().val());
                                    lemma_order(m, x / m, x % m, key.val(), low.val());
                                }
                            }
                            assert forall|p: int| at + 1 <= p < cs.len() implies key.val() < (
                            #[trigger] cs[p]).spec_key().val() by {
                                assert(cs[at as int].spec_key().val() < cs[p].spec_key().val());
                            }
                        }
                        at + 1
                    },
                }
            },
            Err(at) => {
                proof {
                    assert forall|p: int, x: int| 0 <= p < at && #[trigger] keeps(cs[p], x) implies x
                        < from.val() by {
                        lemma_parts(m, x);
                        cs[p].lemma_view();
                        lemma_order(m, x / m, x % m, key.val(), low.val());
                    }
                }
                at
            },
        };
        if start < self.containers.len() {
            proof {
                cs[start as int].lemma_view();
            }
            let first_key: Size::HalfSize = self.containers[start].key();
            let first_low: Size::HalfSize = self.containers[start].min();
            let v: Size = Size::join(first_key, first_low);
            proof {
                lemma_keeps(cs[start as int], first_low.val());
                lemma_order(m, key.val(), low.val(), first_key.val(), first_low.val());
                assert forall|x: int| self@.contains(x) && from.val() <= x implies v.val() <= x by {
                    let p = choose|p: int| 0 <= p < cs.len() && p < cs.len() && keeps(cs[p], x);
                    lemma_parts(m, x);
                    cs[p].lemma_view();
                    if p > start {
                        assert(cs[start as int].spec_key().val() < cs[p].spec_key().val());
                        lemma_order(m, first_key.val(), first_low.val(), x / m, x % m);
                    }
                }
            }
            Some(v)
        } else {
            proof {
                assert forall|x: int| self@.contains(x) implies x < from.val() by {
                    let p = choose|p: int| 0 <= p < cs.len() && p < cs.len() && keeps(cs[p], x);
                    assert(keeps(cs[p], x));
                }
            }
            None
        }
    }

    /// The smallest value of a set that is not empty.
    pub fn min(&self) -> (r: Size)
        requires
            self.wf(),
            self@.len() > 0,
        ensures
            self@.contains(r.val()),
            forall|x: int| self@.contains(x) ==> r.val() <= x,
    {
        let ghost cs = self.containers@;
        let ghost m = Size::HalfSize::domain();
        proof {
            Size::HalfSize::lemma_domain();
            if cs.len() == 0 {
                assert(self@ =~= Set::<int>::empty());
            }
            cs[0].lemma_view();
        }
        let key: Size::HalfSize = self.containers[0].key();
        let low: Size::HalfSize = self.containers[0].min();
        let r: Size = Size::join(key, low);
        proof {
            lemma_keeps(cs[0], low.val());
            assert forall|x: int| self@.contains(x) implies r.val() <= x by {
                let p = choose|p: int| 0 <= p < cs.len() && p < cs.len() && keeps(cs[p], x);
                lemma_parts(m, x);
                cs[p].lemma_view();
                if p > 0 {
                    assert(cs[0].spec_key().val() < cs[p].spec_key().val());
                    lemma_order(m, key.val(), low.val(), x / m, x % m);
                }
            }
        }
        r
    }

    /// The largest value of a set that is not empty.
    pub fn max(&self) -> (r: Size)
        requires
            self.wf(),
            self@.len() > 0,
        ensures
            self@.contains(r.val()),
            forall|x: int| self@.contains(x) ==> x <= r.val(),
    {
        let ghost cs = self.containers@;
        let ghost m = Size::HalfSize::domain();
        proof {
            Size::HalfSize::lemma_domain();
            if cs.len() == 0 {
                assert(self@ =~= Set::<int>::empty());
            }
        }
        let last: usize = self.containers.len() - 1;
        proof {
            cs[last as int].lemma_view();
        }
        let key: Size::HalfSize = self.containers[last].key();
        let low: Size::HalfSize = self.containers[last].max();
        let r: Size = Size::join(key, low);
        proof {
            lemma_keeps(cs[last as int], low.val());
            assert forall|x: int| self@.contains(x) implies x <= r.val() by {
                let p = choose|p: int| 0 <= p < cs.len() && p < cs.len() && keeps(cs[p], x);
                lemma_parts(m, x);
                cs[p].lemma_view();
                if p < last {
                    assert(cs[p].spec_key().val() < cs[last as int].spec_key().val());
                    lemma_order(m, x / m, x % m, key.val(), low.val());
                }
            }
        }
        r
    }

    /// Whether the two sets have no value in common.
    pub fn is_disjoint(&self, other: &Self) -> (r: bool)
        requires
            self.wf(),
            other.wf(),
        ensures
            r == self@.disjoint(other@),
    {
        let ghost a = self.containers@;
        let ghost b = other.containers@;
        let ghost m = Size::HalfSize::domain();
        let ghost mut bound: int = 0;
        let mut i: usize = 0;
        let mut j: usize = 0;
        proof {
            Size::HalfSize::lemma_domain();
            lemma_walk_begin(a, b);
        }
        while i < self.containers.len() && j < other.containers.len()
            invariant
                a == self.containers@,
                b == other.containers@,
                m == Size::HalfSize::domain(),
                self.wf(),
                other.wf(),
                walked(a, b, i as int, j as int, bound),
                forall|x: int| x / m < bound ==> !(view_of(a).contains(x) && view_of(b).contains(x)),
            decreases (self.containers.len() - i) + (other.containers.len() - j),
        {
            let left_key: u64 = self.containers[i].key().to64();
            let right_key: u64 = other.containers[j].key().to64();
            let left: bool = left_key <= right_key;
            let right: bool = right_key <= left_key;
            proof {
                lemma_walk_step(a, b, i as int, j as int, bound, left, right);
            }
            if left && right {
                if !self.containers[i].is_disjoint(&other.containers[j]) {
                    proof {
                        let l = choose|l: int| a[i as int]@.contains(l) && b[j as int]@.contains(l);
                        a[i as int].lemma_view();
                        lemma_keeps(a[i as int], l);
                        lemma_keeps(b[j as int], l);
                        let x = a[i as int].spec_key().val() * m + l;
                        assert(view_of(a).contains(x) && view_of(b).contains(x));
                    }
                    return false;
                }
                proof {
                    bound = left_key + 1;
                }
                i = i + 1;
                j = j + 1;
            } else if left {
                proof {
                    bound = left_key + 1;
                }
                i = i + 1;
            } else {
                proof {
                    bound = right_key + 1;
                }
                j = j + 1;
            }
        }
        proof {
            lemma_walk_end(a, b, i as int, j as int, bound);
        }
        true
    }

    /// Whether every value of this set is in `other`. A set with more
    /// values than `other` is not looked through.
    pub fn is_subset(&self, other: &Self) -> (r: bool)
        requires
            self.wf(),
            other.wf(),
        ensures
            r == self@.subset_of(other@),
            self@.len() > other@.len() ==> !r,
    {
        proof {
            self.lemma_view();
            other.lemma_view();
            if self@.subset_of(other@) {
                vstd::set_lib::lemma_len_subset(self@, other@);
            }
        }
        let larger: bool = match (self.checked_len(), other.checked_len()) {
            (Some(mine), Some(theirs)) => mine > theirs,
            (None, Some(_)) => true,
            (_, None) => false,
        };
        if larger {
            false
        } else {
            self.is_subset_opt(other)
        }
    }

    /// Whether every value of this set is in `other`, found by one pass
    /// over the containers of both in key order: a key that only this set
    /// has settles it, a key that both have is settled by the containers.
    pub fn is_subset_opt(&self, other: &Self) -> (r: bool)
        requires
            self.wf(),
            other.wf(),
        ensures
            r == self@.subset_of(other@),
    {
        let ghost a = self.containers@;
        let ghost b = other.containers@;
        let ghost m = Size::HalfSize::domain();
        let ghost mut bound: int = 0;
        let mut i: usize = 0;
        let mut j: usize = 0;
        proof {
            Size::HalfSize::lemma_domain();
            lemma_walk_begin(a, b);
        }
        while i < self.containers.len()
            invariant
                a == self.containers@,
                b == other.containers@,
                m == Size::HalfSize::domain(),
                m > 0,
                self.wf(),
                other.wf(),
                walked(a, b, i as int, j as int, bound),
                forall|x: int| x / m < bound && view_of(a).contains(x) ==> view_of(b).contains(x),
            decreases (self.containers.len() - i) + (other.containers.len() - j),
        {
            let has_right: bool = j < other.containers.len();
            let left_key: u64 = self.containers[i].key().to64();
            let right_key: u64 = if has_right {
                other.containers[j].key().to64()
            } else {
                0
            };
            let left: bool = !has_right || left_key <= right_key;
            let right: bool = has_right && right_key <= left_key;
            proof {
                lemma_walk_step(a, b, i as int, j as int, bound, left, right);
            }
            if left && right {
                if !self.containers[i].is_subset(&other.containers[j]) {
                    proof {
                        let l = choose|l: int| a[i as int]@.contains(l) && !b[j as int]@.contains(l);
                        a[i as int].lemma_view();
                        lemma_keeps(a[i as int], l);
                        lemma_keeps(b[j as int], l);
                        let x = a[i as int].spec_key().val() * m + l;
                        assert(view_of(a).contains(x) && !view_of(b).contains(x));
                    }
                    return false;
                }
                proof {
                    bound = left_key + 1;
                }
                i = i + 1;
                j = j + 1;
            } else if left {
                proof {
                    let c = a[i as int];
                    c.lemma_view();
                    vstd::set::axiom_set_choose_len(c@);
                    let l = c@.choose();
                    lemma_keeps(c, l);
                    let x = c.spec_key().val() * m + l;
                    assert(view_of(a).contains(x) && !view_of(b).contains(x));
                }
                return false;
            } else {
                proof {
                    bound = right_key + 1;
                }
                j = j + 1;
            }
        }
        proof {
            lemma_walk_end(a, b, i as int, j as int, bound);
        }
        true
    }

    /// Whether every value of `other` is in this set.
    pub fn is_superset(&self, other: &Self) -> (r: bool)
        requires
            self.wf(),
            other.wf(),
        ensures
            r == other@.subset_of(self@),
    {
        other.is_subset(self)
    }

    /// The values of the set in increasing order, all at once.
    pub fn to_vec(&self) -> (r: Vec<Size>)
        requires
            self.wf(),
        ensures
            increasing(vals(r@)),
            vals(r@).to_set() == self@,
    {
        let ghost cs = self.containers@;
        let ghost m = Size::HalfSize::domain();
        let mut out: Vec<Size> = Vec::new();
        let mut i: usize = 0;
        proof {
            Size::HalfSize::lemma_domain();
            assert(vals(out@).to_set() =~= view_below(cs, 0));
        }
        while i < self.containers.len()
            invariant
                0 <= i <= self.containers.len(),
                cs == self.containers@,
                m == Size::HalfSize::domain(),
                m > 0,
                self.wf(),
                increasing(vals(out@)),
                vals(out@).to_set() =~= view_below(cs, i as int),
            decreases self.containers.len() - i,
        {
            let key: Size::HalfSize = self.containers[i].key();
            let lows: Vec<Size::HalfSize> = self.containers[i].iter();
            let ghost c = cs[i as int];
            let ghost ls = vals(lows@);
            let mut t: usize = 0;
            proof {
                assert(ls.subrange(0, 0).to_set() =~= Set::<int>::empty());
            }
            while t < lows.len()
                invariant
                    0 <= t <= lows.len(),
                    0 <= i < cs.len(),
                    c == cs[i as int],
                    key == c.spec_key(),
                    ls == vals(lows@),
                    increasing(ls),
                    ls.to_set() == c@,
                    m == Size::HalfSize::domain(),
                    m > 0,
                    all_valid(cs),
                    keys_increasing(cs),
                    increasing(vals(out@)),
                    forall|x: int|
                        #[trigger] vals(out@).to_set().contains(x) <==> holds_below(cs, i as int, x)
                            || (x / m == key.val() && ls.subrange(0, t as int).to_set().contains(
                            x % m,
                        )),
                decreases lows.len() - t,
            {
                let low: Size::HalfSize = lows[t];
                let value: Size = Size::join(key, low);
                let ghost before = out@;
                proof {
                    low.lemma_val(low);
                    assert(ls[t as int] == low.val());
                    lemma_joined(m, key.val(), low.val());
                    assert forall|x: int| vals(before).to_set().contains(x) implies x
                        < value.val() by {
                        lemma_parts(m, x);
                        if holds_below(cs, i as int, x) {
                            let p = choose|p: int|
                                0 <= p < i && p < cs.len() && keeps(cs[p], x);
                            assert(cs[p].spec_key().val() < cs[i as int].spec_key().val());
                            lemma_order(m, x / m, x % m, key.val(), low.val());
                        } else {
                            let seen = ls.subrange(0, t as int);
                            let u = choose|u: int| 0 <= u < seen.len() && seen[u] == x % m;
                            assert(ls[u] < ls[t as int]);
                        }
                    }
                    lemma_push(before, value);
                    let seen = ls.subrange(0, t as int);
                    assert(ls.subrange(0, t + 1) =~= seen.push(low.val()));
                    lemma_push_set(seen, low.val());
                }
                out.push(value);
                proof {
                    assert forall|x: int| #[trigger]
                        vals(out@).to_set().contains(x) <==> holds_below(cs, i as int, x) || (x / m
                            == key.val() && ls.subrange(0, t + 1).to_set().contains(x % m)) by {
                        lemma_parts(m, x);
                        assert(vals(before).to_set().contains(x) <==> holds_below(cs, i as int, x)
                            || (x / m == key.val() && ls.subrange(0, t as int).to_set().contains(
                            x % m,
                        )));
                    }
                }
                t = t + 1;
            }
            proof {
                assert(ls.subrange(0, ls.len() as int) =~= ls);
                assert forall|x: int| vals(out@).to_set().contains(x) <==> view_below(
                    cs,
                    i + 1,
                ).contains(x) by {
                    if holds_below(cs, i + 1, x) {
                        let p = choose|p: int| 0 <= p < i + 1 && p < cs.len() && keeps(cs[p], x);
                        if p < i {
                            assert(holds_below(cs, i as int, x));
                        }
                    }
                    if holds_below(cs, i as int, x) {
                        let p = choose|p: int| 0 <= p < i && p < cs.len() && keeps(cs[p], x);
                        assert(holds_below(cs, i + 1, x));
                    }
                    if x / m == key.val() && c@.contains(x % m) {
                        assert(keeps(cs[i as int], x));
                    }
                }
            }
            i = i + 1;
        }
        out
    }
}

/// The records of the containers of `cs` from place `from` on, one after
/// the other.
pub open spec fn stream_from<H: ExtInt>(cs: Seq<Container<H>>, from: int) -> Seq<u64>
    decreases cs.len() - from,
{
    if from < 0 || from >= cs.len() {
        Seq::empty()
    } else {
        cs[from].record() + stream_from(cs, from + 1)
    }
}

/// Whether the words of `bits` from `next` on are records of valid
/// containers, one after the other up to the last word, with strictly
/// increasing keys that are no smaller than `floor`.
pub open spec fn valid_stream<H: ExtInt>(bits: Seq<u64>, next: int, floor: int) -> bool
    decreases bits.len() - next,
{
    if next >= bits.len() {
        next == bits.len()
    } else {
        &&& valid_record::<H>(bits, next)
        &&& bits[next] >= floor
        &&& valid_stream::<H>(bits, next + record_len(bits, next), bits[next] + 1)
    }
}

/// The numbers that the record that begins at `next` holds: its low
/// halves under its key.
pub open spec fn record_view<H: ExtInt>(bits: Seq<u64>, next: int) -> Set<int> {
    Set::new(|x: int| x / H::domain() == bits[next] && record_set(bits, next).contains(
        x % H::domain(),
    ))
}

/// The numbers that the records of `bits` from `next` on hold.
pub open spec fn stream_view<H: ExtInt>(bits: Seq<u64>, next: int) -> Set<int>
    decreases bits.len() - next,
{
    if next < 0 || next >= bits.len() || next + record_len(bits, next) > bits.len() {
        Set::empty()
    } else {
        record_view::<H>(bits, next).union(stream_view::<H>(bits, next + record_len(bits, next)))
    }
}

/// Behind any words, the records of valid containers in key order are a
/// valid stream, and it holds what the containers hold.
pub proof fn lemma_stream<H: ExtInt>(pre: Seq<u64>, cs: Seq<Container<H>>, from: int, floor: int)
    requires
        all_valid(cs),
        keys_increasing(cs),
        0 <= from <= cs.len(),
        from < cs.len() ==> floor <= cs[from].spec_key().val(),
    ensures
        valid_stream::<H>(pre + stream_from(cs, from), pre.len() as int, floor),
        stream_view::<H>(pre + stream_from(cs, from), pre.len() as int) =~= view_from(cs, from),
    decreases cs.len() - from,
{
    let bits = pre + stream_from(cs, from);
    let next = pre.len() as int;
    if from == cs.len() {
        assert(bits =~= pre);
        assert(view_from(cs, from) =~= Set::<int>::empty());
    } else {
        let c = cs[from];
        let rec = c.record();
        let rest = stream_from(cs, from + 1);
        assert(bits =~= pre + rec + rest);
        c.lemma_record(pre, rest);
        if from + 1 < cs.len() {
            assert(cs[from].spec_key().val() < cs[from + 1].spec_key().val());
        }
        lemma_stream(pre + rec, cs, from + 1, c.spec_key().val() + 1);
        assert(bits =~= (pre + rec) + rest);
        assert(next + record_len(bits, next) == (pre + rec).len());
        assert(next < bits.len());
        assert forall|x: int| stream_view::<H>(bits, next).contains(x) <==> view_from(
            cs,
            from,
        ).contains(x) by {
            if view_from(cs, from).contains(x) {
                let p = choose|p: int| from <= p < cs.len() && keeps(cs[p], x);
                if p > from {
                    assert(view_from(cs, from + 1).contains(x));
                }
            }
            if view_from(cs, from + 1).contains(x) {
                let p = choose|p: int| from + 1 <= p < cs.len() && keeps(cs[p], x);
                assert(keeps(cs[p], x));
            }
            if record_view::<H>(bits, next).contains(x) {
                assert(keeps(cs[from], x));
            }
        }
    }
}

impl<Size: Halveable> RoaringBitmap<Size> {
    /// The records of the containers of the set, in key order.
    pub open spec fn stream(&self) -> Seq<u64> {
        stream_from(self.spec_containers(), 0)
    }

    /// What a valid set writes can be read, and holds the numbers of the
    /// set.
    pub proof fn lemma_round_trip(&self)
        requires
            self.wf(),
        ensures
            valid_stream::<Size::HalfSize>(self.stream(), 0, 0),
            stream_view::<Size::HalfSize>(self.stream(), 0) == self@,
    {
        let cs = self.spec_containers();
        if cs.len() > 0 {
            cs[0].spec_key().lemma_val(cs[0].spec_key());
        }
        lemma_stream(Seq::<u64>::empty(), cs, 0, 0);
        assert(Seq::<u64>::empty() + stream_from(cs, 0) =~= stream_from(cs, 0));
        assert(view_from(cs, 0) =~= self@);
    }

    /// The records of the containers of the set, in key order.
    pub fn to_raw64(&self) -> (r: Vec<u64>)
        ensures
            r@ == self.stream(),
    {
        let ghost cs = self.containers@;
        let mut raw: Vec<u64> = Vec::new();
        let mut i: usize = 0;
        proof {
            assert(raw@ + stream_from(cs, 0) =~= stream_from(cs, 0));
        }
        while i < self.containers.len()
            invariant
                0 <= i <= self.containers.len(),
                cs == self.containers@,
                raw@ + stream_from(cs, i as int) == stream_from(cs, 0),
            decreases self.containers.len() - i,
        {
            let ghost before = raw@;
            let mut record: Vec<u64> = self.containers[i].to_raw64();
            let ghost rec = record@;
            raw.append(&mut record);
            proof {
                assert(raw@ + stream_from(cs, i + 1) =~= before + (rec + stream_from(cs, i + 1)));
            }
            i = i + 1;
        }
        proof {
            assert(raw@ + stream_from(cs, cs.len() as int) =~= raw@);
        }
        raw
    }

    /// Reads a set from the records of its containers. Fails where `v` is
    /// not made of records of valid containers with strictly increasing
    /// keys. A record without values is read and left out.
    pub fn from_raw64(v: Vec<u64>) -> (r: Result<Self, Malformed>)
        ensures
            match r {
                Ok(s) => {
                    &&& valid_stream::<Size::HalfSize>(v@, 0, 0)
                    &&& s.wf()
                    &&& s@ == stream_view::<Size::HalfSize>(v@, 0)
                },
                Err(_) => !valid_stream::<Size::HalfSize>(v@, 0, 0),
            },
    {
        let ghost bits = v@;
        let ghost m = Size::HalfSize::domain();
        let mut containers: Vec<Container<Size::HalfSize>> = Vec::new();
        let mut next: usize = 0;
        let mut floor: u64 = 0;
        proof {
            Size::HalfSize::lemma_domain();
            Size::lemma_halves();
            assert(view_of(containers@).union(stream_view::<Size::HalfSize>(bits, 0))
                =~= stream_view::<Size::HalfSize>(bits, 0));
        }
        while next < v.len()
            invariant
                0 <= next <= v.len(),
                bits == v@,
                m == Size::HalfSize::domain(),
                narrow::<Size::HalfSize>(),
                64 <= m,
                floor <= m,
                all_valid(containers@),
                keys_increasing(containers@),
                forall|p: int|
                    0 <= p < containers@.len() ==> (#[trigger] containers@[p]).spec_key().val()
                        < floor,
                valid_stream::<Size::HalfSize>(bits, 0, 0) == valid_stream::<Size::HalfSize>(
                    bits,
                    next as int,
                    floor as int,
                ),
                view_of(containers@).union(stream_view::<Size::HalfSize>(bits, next as int))
                    == stream_view::<Size::HalfSize>(bits, 0),
            decreases v.len() - next,
        {
            match Container::<Size::HalfSize>::from_raw64(&v, next) {
                Err(_) => {
                    return Err(Malformed);
                },
                Ok(c) => {
                    let key: u64 = c.key().to64();
                    if key < floor {
                        return Err(Malformed);
                    }
                    let size: usize = v[next + 3] as usize;
                    let ghost before = containers@;
                    let ghost here = next as int;
                    proof {
                        c.lemma_view();
                    }
                    let full: bool = c.len() > 0;
                    if full {
                        containers.push(c);
                    }
                    next = next + 4 + size;
                    floor = key + 1;
                    proof {
                        let after = containers@;
                        let lifted = record_view::<Size::HalfSize>(bits, here);
                        assert forall|x: int| lifted.contains(x) <==> keeps(c, x) by {}
                        if full {
                            assert(after =~= before.insert(before.len() as int, c));
                            lemma_added(before, after, before.len() as int);
                            assert(view_of(after) =~= view_of(before).union(lifted));
                        } else {
                            assert(c@ =~= Set::<int>::empty());
                            assert(lifted =~= Set::<int>::empty());
                        }
                        assert(stream_view::<Size::HalfSize>(bits, here) == lifted.union(
                            stream_view::<Size::HalfSize>(bits, next as int),
                        ));
                        assert(view_of(after).union(
                            stream_view::<Size::HalfSize>(bits, next as int),
                        ) =~= view_of(before).union(stream_view::<Size::HalfSize>(bits, here)));
                    }
                },
            }
        }
        let r = RoaringBitmap { containers: containers };
        proof {
            assert(stream_view::<Size::HalfSize>(bits, next as int) =~= Set::<int>::empty());
            assert(r@ =~= stream_view::<Size::HalfSize>(bits, 0));
        }
        Ok(r)
    }
}

} // verus!

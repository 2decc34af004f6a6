//! Facts about single 64-bit words and about sequences of them read as one
//! long row of bits, and the word-wise passes over two such rows.

use vstd::prelude::*;
use crate::ops::SetOp;

verus! {

/// Whether bit `b` of `w` is set, bit 0 being the lowest.
pub open spec fn has_bit(w: u64, b: u64) -> bool {
    w & (1u64 << b) != 0
}

/// Whether the row of bits `words` has bit `x` set: bit `x % 64` of word
/// `x / 64`.
pub open spec fn bits_contain(words: Seq<u64>, x: int) -> bool {
    0 <= x < 64 * words.len() && has_bit(words[x / 64], (x % 64) as u64)
}

/// The numbers whose bit is set in `words`.
pub open spec fn bits_set(words: Seq<u64>) -> Set<int> {
    Set::new(|x: int| bits_contain(words, x))
}

/// The numbers below `p` whose bit is set in `words`.
pub open spec fn bits_set_below(words: Seq<u64>, p: int) -> Set<int> {
    Set::new(|x: int| x < p && bits_contain(words, x))
}

/// How many of the lowest `n` bits of `w` are set.
pub open spec fn ones_below(w: u64, n: int) -> int
    decreases n,
{
    if n <= 0 {
        0
    } else {
        ones_below(w, n - 1) + if has_bit(w, (n - 1) as u64) { 1int } else { 0int }
    }
}

/// How many bits of `w` are set.
pub open spec fn popcount(w: u64) -> int {
    ones_below(w, 64)
}

/// How many of the first `p` bits of the row `words` are set.
pub open spec fn count_below(words: Seq<u64>, p: int) -> int
    decreases p,
{
    if p <= 0 {
        0
    } else {
        count_below(words, p - 1) + if bits_contain(words, p - 1) { 1int } else { 0int }
    }
}

/// `u64::count_ones`, which std documents as the number of ones in the
/// binary representation of its argument.
pub assume_specification[ u64::count_ones ](w: u64) -> (r: u32)
    ensures
        r == popcount(w),
;

/// What setting and clearing one bit, the four word-wise operations and a
/// shift to the right do to each bit of a word.
pub proof fn lemma_bit_ops(a: u64, b: u64, i: u64, j: u64)
    by (bit_vector)
    requires
        i < 64,
        j < 64,
    ensures
        has_bit(a | (1u64 << i), j) == (has_bit(a, j) || i == j),
        has_bit(a & !(1u64 << i), j) == (has_bit(a, j) && i != j),
        has_bit(a | b, j) == (has_bit(a, j) || has_bit(b, j)),
        has_bit(a & b, j) == (has_bit(a, j) && has_bit(b, j)),
        has_bit(a & !b, j) == (has_bit(a, j) && !has_bit(b, j)),
        has_bit(a ^ b, j) == (has_bit(a, j) != has_bit(b, j)),
        !has_bit(0u64, j),
        has_bit(a, j) == ((a >> j) & 1u64 == 1u64),
        i + j < 64 ==> has_bit(a >> i, j) == has_bit(a, (i + j) as u64),
        i + j >= 64 ==> !has_bit(a >> i, j),
{
}

/// A word that is not zero has a lowest set bit, which is where
/// `trailing_zeros` points.
pub proof fn lemma_lowest_bit(w: u64)
    requires
        w != 0,
    ensures
        w.trailing_zeros() < 64,
        has_bit(w, w.trailing_zeros() as u64),
        forall|j: u64| j < w.trailing_zeros() ==> !has_bit(w, j),
{
    vstd::std_specs::bits::axiom_u64_trailing_zeros(w);
    let t = w.trailing_zeros() as u64;
    lemma_bit_ops(w, 0, 0, t);
    assert forall|j: u64| j < w.trailing_zeros() implies !has_bit(w, j) by {
        assert((w >> j) & 1u64 == 0u64);
        lemma_bit_ops(w, 0, 0, j);
    }
}

/// A word that is not zero has a highest set bit, which `leading_zeros`
/// counts down to from bit 63.
pub proof fn lemma_highest_bit(w: u64)
    requires
        w != 0,
    ensures
        vstd::std_specs::bits::u64_leading_zeros(w) < 64,
        has_bit(w, (63 - vstd::std_specs::bits::u64_leading_zeros(w)) as u64),
        forall|j: u64|
            63 - vstd::std_specs::bits::u64_leading_zeros(w) < j < 64 ==> !has_bit(w, j),
{
    vstd::std_specs::bits::axiom_u64_leading_zeros(w);
    let l = vstd::std_specs::bits::u64_leading_zeros(w) as u64;
    let h = (63 - l) as u64;
    assert((w >> h) & 1u64 != 0u64);
    assert((w >> h) & 1u64 == 1u64) by (bit_vector)
        requires
            (w >> h) & 1u64 != 0u64,
    ;
    lemma_bit_ops(w, 0, 0, h);
    assert forall|j: u64|
        63 - vstd::std_specs::bits::u64_leading_zeros(w) < j < 64 implies !has_bit(w, j) by {
        assert((w >> j) & 1u64 == 0u64);
        lemma_bit_ops(w, 0, 0, j);
    }
}

/// A word is zero exactly when none of its bits is set.
pub proof fn lemma_zero_word(w: u64)
    ensures
        w == 0 <==> (forall|j: u64| j < 64 ==> !has_bit(w, j)),
{
    if w == 0 {
        assert forall|j: u64| j < 64 implies !has_bit(w, j) by {
            lemma_bit_ops(w, 0, 0, j);
        }
    } else {
        lemma_lowest_bit(w);
    }
}

/// Bit `n` of the row is bit `n % 64` of word `n / 64`; within word `k`
/// that is bit `b` at place `64 * k + b`.
pub proof fn lemma_bit_place(words: Seq<u64>, k: int, b: int)
    requires
        0 <= k < words.len(),
        0 <= b < 64,
    ensures
        bits_contain(words, 64 * k + b) == has_bit(words[k], b as u64),
{
    assert((64 * k + b) / 64 == k);
    assert((64 * k + b) % 64 == b);
}

/// Setting the bit of `x` in its word adds `x` to the set of the row and
/// changes nothing else.
pub proof fn lemma_set_bit(before: Seq<u64>, after: Seq<u64>, x: int)
    requires
        0 <= x < 64 * before.len(),
        after == before.update(x / 64, before[x / 64] | (1u64 << ((x % 64) as u64))),
    ensures
        bits_set(after) =~= bits_set(before).insert(x),
{
    assert forall|y: int| bits_set(after).contains(y) <==> bits_set(before).insert(x).contains(
        y,
    ) by {
        if 0 <= y < 64 * before.len() {
            if y / 64 == x / 64 {
                lemma_bit_ops(before[x / 64], 0, (x % 64) as u64, (y % 64) as u64);
            }
        }
    }
}

/// Clearing the bit of `x` in its word takes `x` out of the set of the row
/// and changes nothing else.
pub proof fn lemma_clear_bit(before: Seq<u64>, after: Seq<u64>, x: int)
    requires
        0 <= x < 64 * before.len(),
        after == before.update(x / 64, before[x / 64] & !(1u64 << ((x % 64) as u64))),
    ensures
        bits_set(after) =~= bits_set(before).remove(x),
{
    assert forall|y: int| bits_set(after).contains(y) <==> bits_set(before).remove(x).contains(
        y,
    ) by {
        if 0 <= y < 64 * before.len() {
            if y / 64 == x / 64 {
                lemma_bit_ops(before[x / 64], 0, (x % 64) as u64, (y % 64) as u64);
            }
        }
    }
}

/// No more of the lowest `n` bits of a word are set than there are.
pub proof fn lemma_ones_bound(w: u64, n: int)
    requires
        0 <= n,
    ensures
        0 <= ones_below(w, n) <= n,
    decreases n,
{
    if n > 0 {
        lemma_ones_bound(w, n - 1);
    }
}

/// The set bits among the first `64 * k + n` of the row are those among the
/// first `64 * k` and the lowest `n` of word `k`.
pub proof fn lemma_count_word(words: Seq<u64>, k: int, n: int)
    requires
        0 <= k < words.len(),
        0 <= n <= 64,
    ensures
        count_below(words, 64 * k + n) == count_below(words, 64 * k) + ones_below(words[k], n),
    decreases n,
{
    if n > 0 {
        lemma_count_word(words, k, n - 1);
        lemma_bit_place(words, k, n - 1);
    }
}

/// There are `count_below(words, p)` numbers below `p` whose bit is set.
pub proof fn lemma_count_below(words: Seq<u64>, p: int)
    requires
        0 <= p,
    ensures
        bits_set_below(words, p).finite(),
        bits_set_below(words, p).len() == count_below(words, p),
    decreases p,
{
    if p == 0 {
        assert(bits_set_below(words, p) =~= Set::<int>::empty());
    } else {
        lemma_count_below(words, p - 1);
        if bits_contain(words, p - 1) {
            assert(bits_set_below(words, p) =~= bits_set_below(words, p - 1).insert(p - 1));
        } else {
            assert(bits_set_below(words, p) =~= bits_set_below(words, p - 1));
        }
    }
}

/// A row of bits holds finitely many numbers: as many as it has set bits.
pub proof fn lemma_bits_set_len(words: Seq<u64>)
    ensures
        bits_set(words).finite(),
        bits_set(words).len() == count_below(words, 64 * (words.len() as int)),
{
    lemma_count_below(words, 64 * (words.len() as int));
    assert(bits_set(words) =~= bits_set_below(words, 64 * (words.len() as int)));
}

/// Applied to each pair of words of two bitmaps, a word-wise operation
/// makes the bitmap of the corresponding set operation.
pub proof fn lemma_combined(op: SetOp, bits1: Seq<u64>, bits2: Seq<u64>, out: Seq<u64>)
    requires
        bits1.len() == bits2.len(),
        out.len() == bits1.len(),
        forall|i: int| 0 <= i < out.len() ==> #[trigger] out[i] == op.word(bits1[i], bits2[i]),
    ensures
        bits_set(out) =~= op.set(bits_set(bits1), bits_set(bits2)),
{
    assert forall|x: int| bits_set(out).contains(x) <==> op.set(
        bits_set(bits1),
        bits_set(bits2),
    ).contains(x) by {
        if 0 <= x < 64 * out.len() {
            assert(out[x / 64] == op.word(bits1[x / 64], bits2[x / 64]));
            lemma_bit_ops(bits1[x / 64], bits2[x / 64], 0, (x % 64) as u64);
        }
    }
}

/// Whether two bitmaps of one length have no bit in common: whether the
/// bitwise and of each pair of words is zero.
pub fn words_disjoint(bits1: &Vec<u64>, bits2: &Vec<u64>) -> (r: bool)
    requires
        bits1@.len() == bits2@.len(),
    ensures
        r == bits_set(bits1@).disjoint(bits_set(bits2@)),
{
    let mut i: usize = 0;
    while i < bits1.len()
        invariant
            0 <= i <= bits1.len(),
            bits1@.len() == bits2@.len(),
            forall|x: int| 0 <= x < 64 * i ==> !(bits_contain(bits1@, x) && bits_contain(bits2@, x)),
        decreases bits1.len() - i,
    {
        let both: u64 = bits1[i] & bits2[i];
        if both != 0 {
            proof {
                lemma_lowest_bit(both);
                let low = both.trailing_zeros() as u64;
                lemma_bit_ops(bits1@[i as int], bits2@[i as int], 0, low);
                lemma_bit_place(bits1@, i as int, low as int);
                lemma_bit_place(bits2@, i as int, low as int);
                let x = 64 * i + low;
                assert(bits_set(bits1@).contains(x) && bits_set(bits2@).contains(x));
            }
            return false;
        }
        proof {
            lemma_zero_word(both);
            assert forall|x: int| 0 <= x < 64 * (i + 1) implies !(bits_contain(bits1@, x)
                && bits_contain(bits2@, x)) by {
                if x / 64 == i {
                    lemma_bit_ops(bits1@[i as int], bits2@[i as int], 0, (x % 64) as u64);
                }
            }
        }
        i = i + 1;
    }
    true
}

/// Whether every bit of the bitmap `bits1` is set in `bits2` too: whether
/// the bitwise and of each pair of words is the first word.
pub fn words_within(bits1: &Vec<u64>, bits2: &Vec<u64>) -> (r: bool)
    requires
        bits1@.len() == bits2@.len(),
    ensures
        r == bits_set(bits1@).subset_of(bits_set(bits2@)),
{
    let mut i: usize = 0;
    while i < bits1.len()
        invariant
            0 <= i <= bits1.len(),
            bits1@.len() == bits2@.len(),
            forall|x: int| 0 <= x < 64 * i && bits_contain(bits1@, x) ==> bits_contain(bits2@, x),
        decreases bits1.len() - i,
    {
        let word1: u64 = bits1[i];
        let word2: u64 = bits2[i];
        if word1 & word2 != word1 {
            proof {
                let only: u64 = word1 & !word2;
                assert(only != 0) by (bit_vector)
                    requires
                        word1 & word2 != word1,
                        only == word1 & !word2,
                ;
                lemma_lowest_bit(only);
                let low = only.trailing_zeros() as u64;
                lemma_bit_ops(word1, word2, 0, low);
                lemma_bit_place(bits1@, i as int, low as int);
                lemma_bit_place(bits2@, i as int, low as int);
                let x = 64 * i + low;
                assert(bits_set(bits1@).contains(x) && !bits_set(bits2@).contains(x));
            }
            return false;
        }
        proof {
            assert forall|x: int| 0 <= x < 64 * (i + 1) && bits_contain(bits1@, x) implies
                bits_contain(bits2@, x) by {
                if x / 64 == i {
                    lemma_bit_ops(word1, word2, 0, (x % 64) as u64);
                }
            }
        }
        i = i + 1;
    }
    true
}

/// Replaces each word of `bits1` by what `op` makes of it and the word of
/// `bits2` at the same place.
pub fn combine_words(op: SetOp, bits1: &mut Vec<u64>, bits2: &Vec<u64>)
    requires
        old(bits1)@.len() == bits2@.len(),
    ensures
        final(bits1)@.len() == old(bits1)@.len(),
        bits_set(final(bits1)@) == op.set(bits_set(old(bits1)@), bits_set(bits2@)),
{
    let ghost before = bits1@;
    let mut i: usize = 0;
    while i < bits1.len()
        invariant
            0 <= i <= bits1.len(),
            bits1@.len() == before.len(),
            before.len() == bits2@.len(),
            forall|j: int| 0 <= j < i ==> #[trigger] bits1@[j] == op.word(before[j], bits2@[j]),
            forall|j: int| i <= j < bits1.len() ==> #[trigger] bits1@[j] == before[j],
        decreases bits1.len() - i,
    {
        let word1: u64 = bits1[i];
        let word2: u64 = bits2[i];
        bits1[i] = match op {
            SetOp::Union => word1 | word2,
            SetOp::Intersection => word1 & word2,
            SetOp::Difference => word1 & !word2,
            SetOp::SymmetricDifference => word1 ^ word2,
        };
        i = i + 1;
    }
    proof {
        lemma_combined(op, before, bits2@, bits1@);
    }
}

} // verus!

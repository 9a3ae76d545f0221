//! Arithmetic on the fixed-point progress values of condition nodes.
use vstd::prelude::*;
use vstd::relations::{sorted_by, total_ordering};
use vstd::seq_lib::{group_to_multiset_ensures, lemma_sorted_unique, to_multiset_build, to_multiset_insert};

verus! {

/// Sum of the given progress values.
pub open spec fn sum_of(s: Seq<u64>) -> int
    decreases s.len(),
{
    if s.len() == 0 {
        0
    } else {
        sum_of(s.drop_last()) + s.last()
    }
}

/// Ascending order on progress values.
pub open spec fn ascending() -> spec_fn(u64, u64) -> bool {
    |a: u64, b: u64| a <= b
}

/// Sum of the `n` smallest of the given values (of all of them, if there are fewer than `n`).
pub open spec fn sum_smallest(s: Seq<u64>, n: int) -> int {
    let sorted = s.sort_by(ascending());
    sum_of(sorted.take(if n < s.len() { n } else { s.len() as int }))
}

/// Sum of the `n` largest of the given values (of all of them, if there are fewer than `n`).
pub open spec fn sum_largest(s: Seq<u64>, n: int) -> int {
    let sorted = s.sort_by(ascending());
    sum_of(sorted.skip(if n < s.len() { s.len() - n } else { 0 }))
}

/// Appending one value to a range adds that value to its sum.
pub proof fn lemma_sum_extend(s: Seq<u64>, lo: int, hi: int)
    requires
        0 <= lo <= hi < s.len(),
    ensures
        sum_of(s.subrange(lo, hi + 1)) == sum_of(s.subrange(lo, hi)) + s[hi],
{
    assert(s.subrange(lo, hi + 1).drop_last() =~= s.subrange(lo, hi));
}

/// A sum of progress values is at least the sum of any prefix of them.
pub proof fn lemma_sum_prefix_le(s: Seq<u64>, k: int)
    requires
        0 <= k <= s.len(),
    ensures
        0 <= sum_of(s.take(k)) <= sum_of(s),
    decreases s.len() - k,
{
    if k < s.len() {
        lemma_sum_prefix_le(s, k + 1);
        lemma_sum_extend(s, 0, k);
        lemma_sum_nonneg(s.take(k));
        assert(s.take(k) =~= s.subrange(0, k));
        assert(s.take(k + 1) =~= s.subrange(0, k + 1));
    } else {
        assert(s.take(k) =~= s);
        lemma_sum_nonneg(s);
    }
}

/// A sum of progress values is not negative.
pub proof fn lemma_sum_nonneg(s: Seq<u64>)
    ensures
        sum_of(s) >= 0,
    decreases s.len(),
{
    if s.len() > 0 {
        lemma_sum_nonneg(s.drop_last());
    }
}

/// Ascending order on progress values is a total order.
pub proof fn lemma_ascending_total()
    ensures
        total_ordering(ascending()),
{
}

/// Sorts progress values into ascending order.
pub fn sort_ascending(v: &Vec<u64>) -> (r: Vec<u64>)
    ensures
        r@ == v@.sort_by(ascending()),
{
    broadcast use group_to_multiset_ensures;

    let mut out: Vec<u64> = Vec::new();
    let mut i: usize = 0;
    while i < v.len()
        invariant
            i <= v.len(),
            sorted_by(out@, ascending()),
            out@.to_multiset() =~= v@.take(i as int).to_multiset(),
        decreases v.len() - i,
    {
        let x = v[i];
        let mut j: usize = 0;
        while j < out.len() && out[j] <= x
            invariant
                j <= out.len(),
                forall|k: int| 0 <= k < j ==> out@[k] <= x,
            decreases out.len() - j,
        {
            j = j + 1;
        }
        let ghost before = out@;
        out.insert(j, x);
        assert(out@ =~= before.insert(j as int, x));
        assert(v@.take(i as int + 1) =~= v@.take(i as int).push(x));
        proof {
            to_multiset_insert(before, j as int, x);
            to_multiset_build(v@.take(i as int), x);
        }
        assert forall|a: int, b: int| 0 <= a < b < out@.len() implies #[trigger] (ascending())(
            out@[a],
            out@[b],
        ) by {
            assert((ascending())(before[0], before[0]) || before.len() == 0);
            if b < j {
                assert((ascending())(before[a], before[b]));
            } else if a > j {
                assert((ascending())(before[a - 1], before[b - 1]));
            } else if a == j {
                if b - 1 < before.len() && j < before.len() {
                    assert((ascending())(before[j as int], before[b - 1]));
                }
            } else {
                assert((ascending())(before[a], before[b - 1]));
            }
        }
        i = i + 1;
    }
    assert(v@.take(v.len() as int) =~= v@);
    proof {
        lemma_ascending_total();
        v@.lemma_sort_by_ensures(ascending());
        lemma_sorted_unique(out@, v@.sort_by(ascending()), ascending());
    }
    out
}

/// Sums the values of `s` from index `lo` up to, not including, index `hi`.
pub fn sum_range(s: &Vec<u64>, lo: usize, hi: usize) -> (r: u64)
    requires
        lo <= hi <= s.len(),
        sum_of(s@.subrange(lo as int, hi as int)) <= u64::MAX,
    ensures
        r == sum_of(s@.subrange(lo as int, hi as int)),
{
    let mut acc: u64 = 0;
    let mut i: usize = lo;
    while i < hi
        invariant
            lo <= i <= hi <= s.len(),
            acc == sum_of(s@.subrange(lo as int, i as int)),
            sum_of(s@.subrange(lo as int, hi as int)) <= u64::MAX,
        decreases hi - i,
    {
        proof {
            lemma_sum_extend(s@, lo as int, i as int);
            let t = s@.subrange(lo as int, hi as int);
            lemma_sum_prefix_le(t, i - lo + 1);
            assert(t.take(i - lo + 1) =~= s@.subrange(lo as int, i + 1));
        }
        acc = acc + s[i];
        i = i + 1;
    }
    acc
}


/// Sums the values of `s` from index `lo` up to, not including, index `hi`, when each of them
/// is at most `bound`; the sum is taken wide enough that it cannot overflow.
pub fn sum_range_wide(s: &Vec<u64>, lo: usize, hi: usize, bound: u64) -> (r: u128)
    requires
        lo <= hi <= s.len(),
        forall|i: int| lo <= i < hi ==> s@[i] <= bound,
    ensures
        r == sum_of(s@.subrange(lo as int, hi as int)),
        r <= (hi - lo) * bound,
{
    let mut acc: u128 = 0;
    let mut i: usize = lo;
    assert(s@.subrange(lo as int, lo as int) =~= Seq::<u64>::empty());
    while i < hi
        invariant
            lo <= i <= hi <= s.len(),
            forall|j: int| lo <= j < hi ==> s@[j] <= bound,
            acc == sum_of(s@.subrange(lo as int, i as int)),
            acc <= (i - lo) * bound,
        decreases hi - i,
    {
        proof {
            lemma_sum_extend(s@, lo as int, i as int);
            let k = i - lo;
            assert(k * bound + bound == (k + 1) * bound) by (nonlinear_arith);
            assert((k + 1) * bound <= u64::MAX * u64::MAX) by (nonlinear_arith)
                requires
                    k + 1 <= u64::MAX,
                    bound <= u64::MAX,
            ;
        }
        acc = acc + s[i] as u128;
        i = i + 1;
    }
    acc
}

/// A sum of values that are each at most the matching value of another sequence is at most
/// the other sum.
pub proof fn lemma_sum_pointwise_le(a: Seq<u64>, b: Seq<u64>)
    requires
        a.len() == b.len(),
        forall|i: int| 0 <= i < a.len() ==> a[i] <= b[i],
    ensures
        sum_of(a) <= sum_of(b),
    decreases a.len(),
{
    if a.len() > 0 {
        lemma_sum_pointwise_le(a.drop_last(), b.drop_last());
    }
}

/// `current * total / required` lies between zero and `total` when `current` is at most `required`.
pub proof fn lemma_scaled_le(current: int, required: int, total: int)
    requires
        0 <= current <= required,
        0 < required,
        0 <= total,
    ensures
        0 <= (current * total) / required <= total,
{
    assert(current * total <= required * total) by (nonlinear_arith)
        requires
            current <= required,
            0 <= total,
    ;
    assert(0 <= current * total) by (nonlinear_arith)
        requires
            0 <= current,
            0 <= total,
    ;
    vstd::arithmetic::div_mod::lemma_div_is_ordered(current * total, required * total, required);
    vstd::arithmetic::div_mod::lemma_div_multiples_vanish(total, required);
    vstd::arithmetic::div_mod::lemma_div_pos_is_pos(current * total, required);
}

} // verus!

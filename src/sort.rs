use vstd::prelude::*;
use vstd::seq_lib::{group_to_multiset_ensures, lemma_multiset_commutative};
use vstd::multiset::group_multiset_axioms;

verus! {

/// The elements of `s` at positions `[lo, hi)` are in non-decreasing order.
pub open spec fn sorted_between(s: Seq<i64>, lo: int, hi: int) -> bool {
    forall|a: int, b: int| lo <= a <= b < hi ==> s[a] <= s[b]
}

/// `after` is `before` with only the positions `[lo, hi)` rearranged among themselves.
pub open spec fn permuted_within(before: Seq<i64>, after: Seq<i64>, lo: int, hi: int) -> bool {
    &&& 0 <= lo <= hi <= before.len()
    &&& after.len() == before.len()
    &&& forall|k: int| 0 <= k < before.len() && !(lo <= k < hi) ==> after[k] == before[k]
    &&& after.subrange(lo, hi).to_multiset() == before.subrange(lo, hi).to_multiset()
}

proof fn lemma_swap_multiset(s: Seq<i64>, i: int, j: int)
    requires
        0 <= i < s.len(),
        0 <= j < s.len(),
    ensures
        s.update(i, s[j]).update(j, s[i]).to_multiset() =~= s.to_multiset(),
{
    broadcast use group_to_multiset_ensures, group_multiset_axioms;

    let s1 = s.update(i, s[j]);
    assert(s1[j] == s[j]);
}

proof fn lemma_swap_within(s: Seq<i64>, i: int, j: int, lo: int, hi: int)
    requires
        0 <= lo <= i < hi <= s.len(),
        lo <= j < hi,
    ensures
        permuted_within(s, s.update(i, s[j]).update(j, s[i]), lo, hi),
{
    let t = s.update(i, s[j]).update(j, s[i]);
    let sub = s.subrange(lo, hi);
    assert(t.subrange(lo, hi) =~= sub.update(i - lo, sub[j - lo]).update(j - lo, sub[i - lo]));
    lemma_swap_multiset(sub, i - lo, j - lo);
}

/// Rearranging a middle part of a range rearranges the whole range.
proof fn lemma_widen(a: Seq<i64>, b: Seq<i64>, lo: int, mid_lo: int, mid_hi: int, hi: int)
    requires
        permuted_within(a, b, mid_lo, mid_hi),
        0 <= lo <= mid_lo,
        mid_hi <= hi <= a.len(),
    ensures
        permuted_within(a, b, lo, hi),
{
    broadcast use group_multiset_axioms;

    assert(a.subrange(lo, hi) =~= a.subrange(lo, mid_lo) + a.subrange(mid_lo, mid_hi) + a.subrange(mid_hi, hi));
    assert(b.subrange(lo, hi) =~= b.subrange(lo, mid_lo) + b.subrange(mid_lo, mid_hi) + b.subrange(mid_hi, hi));
    assert(a.subrange(lo, mid_lo) =~= b.subrange(lo, mid_lo));
    assert(a.subrange(mid_hi, hi) =~= b.subrange(mid_hi, hi));
    lemma_multiset_commutative(a.subrange(lo, mid_lo) + a.subrange(mid_lo, mid_hi), a.subrange(mid_hi, hi));
    lemma_multiset_commutative(a.subrange(lo, mid_lo), a.subrange(mid_lo, mid_hi));
    lemma_multiset_commutative(b.subrange(lo, mid_lo) + b.subrange(mid_lo, mid_hi), b.subrange(mid_hi, hi));
    lemma_multiset_commutative(b.subrange(lo, mid_lo), b.subrange(mid_lo, mid_hi));
}

/// Rearranging a range keeps every bound that held of all its elements.
proof fn lemma_bounds_kept(a: Seq<i64>, b: Seq<i64>, lo: int, hi: int, min: int, max: int)
    requires
        permuted_within(a, b, lo, hi),
        forall|k: int| lo <= k < hi ==> min <= #[trigger] a[k] <= max,
    ensures
        forall|k: int| lo <= k < hi ==> min <= #[trigger] b[k] <= max,
{
    broadcast use group_to_multiset_ensures;

    assert forall|k: int| lo <= k < hi implies min <= #[trigger] b[k] <= max by {
        let x = b[k];
        assert(b.subrange(lo, hi)[k - lo] == x);
        assert(b.subrange(lo, hi).contains(x));
        assert(b.subrange(lo, hi).to_multiset().count(x) > 0);
        assert(a.subrange(lo, hi).to_multiset().count(x) > 0);
        assert(a.subrange(lo, hi).contains(x));
        let m = choose|m: int| 0 <= m < hi - lo && a.subrange(lo, hi)[m] == x;
        assert(a[lo + m] == x);
    }
}

fn swap(arr: &mut [i64], i: usize, j: usize)
    requires
        i < old(arr)@.len(),
        j < old(arr)@.len(),
    ensures
        final(arr)@ == old(arr)@.update(i as int, old(arr)@[j as int]).update(j as int, old(arr)@[i as int]),
{
    let t = arr[i];
    arr[i] = arr[j];
    arr[j] = t;
}

/// Lomuto partition of `arr[low..=high]` around its last element; returns
/// where that element ends up.
fn partition(arr: &mut [i64], low: usize, high: usize) -> (pi: usize)
    requires
        low <= high < old(arr)@.len(),
    ensures
        low <= pi <= high,
        final(arr)@[pi as int] == old(arr)@[high as int],
        permuted_within(old(arr)@, final(arr)@, low as int, high + 1),
        forall|k: int| low <= k < pi ==> #[trigger] final(arr)@[k] < final(arr)@[pi as int],
        forall|k: int| pi < k <= high ==> #[trigger] final(arr)@[k] >= final(arr)@[pi as int],
{
    let ghost orig = arr@;
    let pivot = arr[high];
    let mut i: usize = low;
    let mut j: usize = low;
    assert(arr@.subrange(low as int, high + 1) =~= orig.subrange(low as int, high + 1));
    while j < high
        invariant
            low <= i <= j <= high,
            high < arr@.len(),
            arr@[high as int] == pivot,
            pivot == orig[high as int],
            permuted_within(orig, arr@, low as int, high + 1),
            forall|k: int| low <= k < i ==> #[trigger] arr@[k] < pivot,
            forall|k: int| i <= k < j ==> #[trigger] arr@[k] >= pivot,
        decreases high - j,
    {
        if arr[j] < pivot {
            let ghost before = arr@;
            swap(arr, i, j);
            proof {
                lemma_swap_within(before, i as int, j as int, low as int, high + 1);
            }
            i = i + 1;
        }
        j = j + 1;
    }
    let ghost before = arr@;
    swap(arr, i, high);
    proof {
        lemma_swap_within(before, i as int, high as int, low as int, high + 1);
    }
    i
}

/// Sorts `arr[low..=high]` in place; an empty range (`low > high`) is left as it is.
fn quicksort_recursive(arr: &mut [i64], low: usize, high: usize)
    requires
        high < old(arr)@.len(),
        low <= high + 1,
    ensures
        permuted_within(old(arr)@, final(arr)@, low as int, high + 1),
        sorted_between(final(arr)@, low as int, high + 1),
    decreases high + 1 - low,
{
    let ghost orig = arr@;
    if low < high {
        let pi = partition(arr, low, high);
        let ghost parted = arr@;
        let pivot = arr[pi];
        if pi > 0 {
            quicksort_recursive(arr, low, pi - 1);
            proof {
                lemma_bounds_kept(parted, arr@, low as int, pi as int, i64::MIN as int, pivot - 1);
                lemma_widen(parted, arr@, low as int, low as int, pi as int, high + 1);
            }
        } else {
            assert(arr@.subrange(low as int, high + 1) =~= parted.subrange(low as int, high + 1));
        }
        let ghost left_done = arr@;
        quicksort_recursive(arr, pi + 1, high);
        proof {
            lemma_bounds_kept(left_done, arr@, pi + 1, high + 1, pivot as int, i64::MAX as int);
            lemma_widen(left_done, arr@, low as int, pi + 1, high + 1, high + 1);
            assert(arr@[pi as int] == pivot);
        }
    } else {
        assert(arr@.subrange(low as int, high + 1) =~= orig.subrange(low as int, high + 1));
    }
}

/// Sorts `arr` in ascending order, in place, by quicksort with the last
/// element of each range as pivot.
pub fn quicksort(arr: &mut [i64])
    ensures
        final(arr)@.len() == old(arr)@.len(),
        sorted_between(final(arr)@, 0, final(arr)@.len() as int),
        final(arr)@.to_multiset() == old(arr)@.to_multiset(),
{
    let ghost orig = arr@;
    if arr.len() <= 1 {
        return;
    }
    let high = arr.len() - 1;
    quicksort_recursive(arr, 0, high);
    assert(arr@.subrange(0, arr@.len() as int) =~= arr@);
    assert(orig.subrange(0, orig.len() as int) =~= orig);
}

} // verus!

//! Stable sorting by an integer key.

use vstd::prelude::*;

verus! {

/// A value that is put in order by an integer key.
pub trait Keyed: Copy {
    /// The key of the value.
    spec fn key(&self) -> int;

    /// Tells whether the key of this value is at most the key of `other`.
    fn sorts_no_later_than(&self, other: &Self) -> (no_later: bool)
        ensures
            no_later == (self.key() <= other.key()),
    ;
}

/// The keys of `items`, position by position.
pub open spec fn keys_of<T: Keyed>(items: Seq<T>) -> Seq<int> {
    Seq::new(items.len(), |i: int| items[i].key())
}

/// In a stable ascending sort, the element at index `i` goes before the one
/// at index `j`: its key is smaller, or the keys are equal and it stood first.
pub open spec fn sorts_before(keys: Seq<int>, i: int, j: int) -> bool {
    keys[i] < keys[j] || (keys[i] == keys[j] && i < j)
}

/// `order` lists the indices `lo..hi`, each of them once, in the order in
/// which a stable ascending sort puts the elements with these `keys`.
pub open spec fn is_stable_order_of_slice(keys: Seq<int>, lo: int, hi: int, order: Seq<int>) -> bool {
    &&& order.len() == hi - lo
    &&& forall|k: int| 0 <= k < order.len() ==> lo <= #[trigger] order[k] < hi
    &&& forall|i: int| lo <= i < hi ==> #[trigger] order.contains(i)
    &&& forall|k1: int, k2: int|
        0 <= k1 < k2 < order.len() ==> sorts_before(keys, #[trigger] order[k1], #[trigger] order[k2])
}

/// `order` lists all indices of `keys` in stable ascending order.
pub open spec fn is_stable_order(keys: Seq<int>, order: Seq<int>) -> bool {
    is_stable_order_of_slice(keys, 0, keys.len() as int, order)
}

/// The elements of `items` taken in the given `order` of indices.
pub open spec fn rearranged<T>(items: Seq<T>, order: Seq<int>) -> Seq<T> {
    Seq::new(order.len(), |k: int| items[order[k]])
}

/// `sorted` holds the elements of `items` in ascending order of their keys,
/// elements with equal keys in the order they have in `items`.
pub open spec fn is_stable_sort<T: Keyed>(items: Seq<T>, sorted: Seq<T>) -> bool {
    exists|order: Seq<int>| #[trigger]
        is_stable_order(keys_of(items), order) && sorted == rearranged(items, order)
}

/// Selects the values whose key is `k`.
pub open spec fn has_key<T: Keyed>(k: int) -> spec_fn(T) -> bool {
    |item: T| item.key() == k
}

/// Where no value is as asked for, selecting leaves nothing.
pub proof fn lemma_nothing_selected<T>(items: Seq<T>, wanted: spec_fn(T) -> bool)
    requires
        forall|i: int| 0 <= i < items.len() ==> !wanted(#[trigger] items[i]),
    ensures
        items.filter(wanted) == Seq::<T>::empty(),
    decreases items.len(),
{
    reveal(Seq::filter);
    if items.len() > 0 {
        assert forall|i: int| 0 <= i < items.drop_last().len() implies !wanted(#[trigger] items.drop_last()[i]) by {
            assert(items.drop_last()[i] == items[i]);
        }
        lemma_nothing_selected(items.drop_last(), wanted);
    }
}

/// Leaving out the entry for the last index of a stable order gives a stable
/// order of the keys without the last one.
proof fn lemma_stable_order_without_last(keys: Seq<int>, order: Seq<int>, at: int)
    requires
        keys.len() > 0,
        is_stable_order(keys, order),
        0 <= at < order.len(),
        order[at] == keys.len() - 1,
    ensures
        is_stable_order(keys.drop_last(), order.remove(at)),
        forall|k: int| at < k < order.len() ==> keys[#[trigger] order[k]] > keys[keys.len() - 1],
{
    let shorter = order.remove(at);
    let last = keys.len() - 1;
    assert forall|k: int| 0 <= k < shorter.len() implies 0 <= #[trigger] shorter[k] < last by {
        let from = if k < at { k } else { k + 1 };
        assert(shorter[k] == order[from]);
        if from < at {
            assert(sorts_before(keys, order[from], order[at]));
        } else {
            assert(sorts_before(keys, order[at], order[from]));
        }
    }
    assert forall|i: int| 0 <= i < last implies #[trigger] shorter.contains(i) by {
        assert(order.contains(i));
        let k = choose|k: int| 0 <= k < order.len() && order[k] == i;
        if k < at {
            assert(shorter[k] == i);
        } else {
            assert(shorter[k - 1] == i);
        }
    }
    assert forall|k1: int, k2: int| 0 <= k1 < k2 < shorter.len() implies sorts_before(
        keys.drop_last(),
        #[trigger] shorter[k1],
        #[trigger] shorter[k2],
    ) by {
        let from1 = if k1 < at { k1 } else { k1 + 1 };
        let from2 = if k2 < at { k2 } else { k2 + 1 };
        assert(shorter[k1] == order[from1]);
        assert(shorter[k2] == order[from2]);
        assert(sorts_before(keys, order[from1], order[from2]));
    }
    assert forall|k: int| at < k < order.len() implies keys[#[trigger] order[k]] > keys[last] by {
        assert(sorts_before(keys, order[at], order[k]));
    }
}

/// Taking the values in a stable order leaves the values of one key in the
/// order they had.
proof fn lemma_stable_order_keeps_order_within_key<T: Keyed>(items: Seq<T>, order: Seq<int>, k: int)
    requires
        is_stable_order(keys_of(items), order),
    ensures
        rearranged(items, order).filter(has_key(k)) == items.filter(has_key(k)),
    decreases items.len(),
{
    reveal(Seq::filter);
    let sorted = rearranged(items, order);
    if items.len() > 0 {
        let keys = keys_of(items);
        let last = items.len() - 1;
        assert(order.contains(last));
        let at = choose|at: int| 0 <= at < order.len() && order[at] == last;
        let fewer = items.drop_last();
        let shorter = order.remove(at);
        lemma_stable_order_without_last(keys, order, at);
        assert(keys.drop_last() =~= keys_of(fewer));
        lemma_stable_order_keeps_order_within_key(fewer, shorter, k);

        let front = sorted.take(at);
        let back = sorted.skip(at + 1);
        assert(rearranged(fewer, shorter) =~= front + back);
        assert(sorted =~= front + seq![items[last]] + back);
        Seq::filter_distributes_over_add(front, back, has_key(k));
        Seq::filter_distributes_over_add(front, seq![items[last]], has_key(k));
        Seq::filter_distributes_over_add(front + seq![items[last]], back, has_key(k));
        assert forall|j: int| 0 <= j < back.len() implies (#[trigger] back[j]).key() != items[last].key() by {
            assert(back[j] == items[order[at + 1 + j]]);
            assert(keys[order[at + 1 + j]] > keys[last]);
        }
        if items[last].key() == k {
            lemma_nothing_selected(back, has_key(k));
            assert(sorted.filter(has_key(k)) =~= front.filter(has_key(k)).push(items[last]));
        } else {
            lemma_nothing_selected(seq![items[last]], has_key(k));
            assert(sorted.filter(has_key(k)) =~= front.filter(has_key(k)) + back.filter(has_key(k)));
        }
    } else {
        assert(sorted =~= items);
    }
}

/// A stable sort keeps the values of one key in the order they had: the
/// values with key `k` are the same sequence before and after the sort.
pub proof fn lemma_stable_sort_keeps_order_within_key<T: Keyed>(items: Seq<T>, sorted: Seq<T>, k: int)
    requires
        is_stable_sort(items, sorted),
    ensures
        sorted.filter(has_key(k)) == items.filter(has_key(k)),
{
    let order = choose|order: Seq<int>| #[trigger]
        is_stable_order(keys_of(items), order) && sorted == rearranged(items, order);
    lemma_stable_order_keeps_order_within_key(items, order, k);
}

/// A stable sort gives the values in ascending order of their keys.
pub proof fn lemma_stable_sort_is_ascending<T: Keyed>(items: Seq<T>, sorted: Seq<T>)
    requires
        is_stable_sort(items, sorted),
    ensures
        forall|k1: int, k2: int|
            0 <= k1 <= k2 < sorted.len() ==> (#[trigger] sorted[k1]).key() <= (#[trigger] sorted[k2]).key(),
{
    let keys = keys_of(items);
    let order = choose|order: Seq<int>| #[trigger]
        is_stable_order(keys, order) && sorted == rearranged(items, order);
    assert forall|k1: int, k2: int| 0 <= k1 <= k2 < sorted.len() implies (#[trigger] sorted[k1]).key() <= (
    #[trigger] sorted[k2]).key() by {
        if k1 < k2 {
            assert(sorts_before(keys, order[k1], order[k2]));
        }
    }
}

/// A stable sort gives as many values as it was given, and each of them is
/// one of the values it was given.
pub proof fn lemma_stable_sort_keeps_the_values<T: Keyed>(items: Seq<T>, sorted: Seq<T>)
    requires
        is_stable_sort(items, sorted),
    ensures
        sorted.len() == items.len(),
        forall|k: int| 0 <= k < sorted.len() ==> items.contains(#[trigger] sorted[k]),
        forall|i: int| 0 <= i < items.len() ==> sorted.contains(#[trigger] items[i]),
{
    let order = choose|order: Seq<int>| #[trigger]
        is_stable_order(keys_of(items), order) && sorted == rearranged(items, order);
    assert forall|k: int| 0 <= k < sorted.len() implies items.contains(#[trigger] sorted[k]) by {
        assert(items[order[k]] == sorted[k]);
    }
    assert forall|i: int| 0 <= i < items.len() implies sorted.contains(#[trigger] items[i]) by {
        assert(order.contains(i));
        let k = choose|k: int| 0 <= k < order.len() && order[k] == i;
        assert(sorted[k] == items[i]);
    }
}

/// Merges two sorted runs that come from the neighbouring slices `lo..mid`
/// and `mid..hi` of `items`. On equal keys the element of the left run goes
/// first.
fn merge_runs<T: Keyed>(
    left: &Vec<T>,
    right: &Vec<T>,
    Ghost(items): Ghost<Seq<T>>,
    Ghost(lo): Ghost<int>,
    Ghost(mid): Ghost<int>,
    Ghost(hi): Ghost<int>,
    Ghost(left_order): Ghost<Seq<int>>,
    Ghost(right_order): Ghost<Seq<int>>,
) -> (res: (Vec<T>, Ghost<Seq<int>>))
    requires
        0 <= lo <= mid <= hi <= items.len(),
        is_stable_order_of_slice(keys_of(items), lo, mid, left_order),
        is_stable_order_of_slice(keys_of(items), mid, hi, right_order),
        left@ == rearranged(items, left_order),
        right@ == rearranged(items, right_order),
    ensures
        is_stable_order_of_slice(keys_of(items), lo, hi, res.1@),
        res.0@ == rearranged(items, res.1@),
{
    let ghost keys = keys_of(items);
    let mut merged: Vec<T> = Vec::new();
    let ghost mut order: Seq<int> = Seq::empty();
    let mut i: usize = 0;
    let mut j: usize = 0;
    while i < left.len() || j < right.len()
        invariant
            0 <= lo <= mid <= hi <= items.len(),
            keys == keys_of(items),
            is_stable_order_of_slice(keys, lo, mid, left_order),
            is_stable_order_of_slice(keys, mid, hi, right_order),
            left@ == rearranged(items, left_order),
            right@ == rearranged(items, right_order),
            i <= left.len(),
            j <= right.len(),
            order.len() == i + j,
            merged@ == rearranged(items, order),
            forall|k: int| 0 <= k < order.len() ==> lo <= #[trigger] order[k] < hi,
            forall|a: int| 0 <= a < i ==> order.contains(#[trigger] left_order[a]),
            forall|b: int| 0 <= b < j ==> order.contains(#[trigger] right_order[b]),
            forall|k1: int, k2: int|
                0 <= k1 < k2 < order.len() ==> sorts_before(keys, #[trigger] order[k1], #[trigger] order[k2]),
            forall|k: int, a: int|
                0 <= k < order.len() && i <= a < left.len() ==> sorts_before(
                    keys,
                    #[trigger] order[k],
                    #[trigger] left_order[a],
                ),
            forall|k: int, b: int|
                0 <= k < order.len() && j <= b < right.len() ==> sorts_before(
                    keys,
                    #[trigger] order[k],
                    #[trigger] right_order[b],
                ),
        decreases left.len() - i + right.len() - j,
    {
        let take_left = if i == left.len() {
            false
        } else if j == right.len() {
            true
        } else {
            left[i].sorts_no_later_than(&right[j])
        };
        let ghost before = order;
        if take_left {
            merged.push(left[i]);
            proof {
                order = before.push(left_order[i as int]);
                assert forall|a: int| 0 <= a < i + 1 implies order.contains(
                    #[trigger] left_order[a],
                ) by {
                    if a < i {
                        let k = choose|k: int| 0 <= k < before.len() && before[k] == left_order[a];
                        assert(order[k] == left_order[a]);
                    } else {
                        assert(order[before.len() as int] == left_order[a]);
                    }
                }
                assert forall|b: int| 0 <= b < j implies order.contains(
                    #[trigger] right_order[b],
                ) by {
                    let k = choose|k: int| 0 <= k < before.len() && before[k] == right_order[b];
                    assert(order[k] == right_order[b]);
                }
            }
            i += 1;
        } else {
            merged.push(right[j]);
            proof {
                order = before.push(right_order[j as int]);
                assert forall|a: int| 0 <= a < i implies order.contains(
                    #[trigger] left_order[a],
                ) by {
                    let k = choose|k: int| 0 <= k < before.len() && before[k] == left_order[a];
                    assert(order[k] == left_order[a]);
                }
                assert forall|b: int| 0 <= b < j + 1 implies order.contains(
                    #[trigger] right_order[b],
                ) by {
                    if b < j {
                        let k = choose|k: int| 0 <= k < before.len() && before[k] == right_order[b];
                        assert(order[k] == right_order[b]);
                    } else {
                        assert(order[before.len() as int] == right_order[b]);
                    }
                }
            }
            j += 1;
        }
    }
    proof {
        assert forall|x: int| lo <= x < hi implies #[trigger] order.contains(x) by {
            if x < mid {
                assert(left_order.contains(x));
                let a = choose|a: int| 0 <= a < left_order.len() && left_order[a] == x;
                assert(order.contains(left_order[a]));
            } else {
                assert(right_order.contains(x));
                let b = choose|b: int| 0 <= b < right_order.len() && right_order[b] == x;
                assert(order.contains(right_order[b]));
            }
        }
    }
    (merged, Ghost(order))
}

/// Sorts the slice `lo..hi` of `items` and tells which index each element of
/// the result came from.
fn sort_slice<T: Keyed>(items: &Vec<T>, lo: usize, hi: usize) -> (res: (Vec<T>, Ghost<Seq<int>>))
    requires
        lo <= hi <= items.len(),
    ensures
        is_stable_order_of_slice(keys_of(items@), lo as int, hi as int, res.1@),
        res.0@ == rearranged(items@, res.1@),
    decreases hi - lo,
{
    if hi - lo < 2 {
        let mut run: Vec<T> = Vec::new();
        let ghost mut order: Seq<int> = Seq::empty();
        if lo < hi {
            run.push(items[lo]);
            proof {
                order = order.push(lo as int);
                assert(order[0] == lo);
            }
        }
        (run, Ghost(order))
    } else {
        let mid = lo + (hi - lo) / 2;
        let (left, Ghost(left_order)) = sort_slice(items, lo, mid);
        let (right, Ghost(right_order)) = sort_slice(items, mid, hi);
        merge_runs(
            &left,
            &right,
            Ghost(items@),
            Ghost(lo as int),
            Ghost(mid as int),
            Ghost(hi as int),
            Ghost(left_order),
            Ghost(right_order),
        )
    }
}

/// Returns the elements of `items` in ascending order of their keys. The sort
/// is stable: elements with equal keys keep the order they had.
pub fn stable_sort_by_key<T: Keyed>(items: &Vec<T>) -> (sorted: Vec<T>)
    ensures
        is_stable_sort(items@, sorted@),
{
    let (sorted, Ghost(order)) = sort_slice(items, 0, items.len());
    assert(is_stable_order(keys_of(items@), order));
    sorted
}

} // verus!

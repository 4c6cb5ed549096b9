//! A stable sort by an integer key.

use vstd::prelude::*;
use vstd::set_lib::*;

verus! {

/// Whether item `a` comes before item `b`: the smaller key first, and of equal keys the item
/// that stood first.
pub open spec fn comes_before(keys: Seq<u64>, a: int, b: int) -> bool {
    keys[a] < keys[b] || (keys[a] == keys[b] && a < b)
}

/// Whether `order` gives the items from first to last.
pub open spec fn is_stable_order(keys: Seq<u64>, order: Seq<usize>) -> bool {
    &&& order.len() == keys.len()
    &&& forall|i: int| 0 <= i < order.len() ==> 0 <= #[trigger] order[i] < keys.len()
    &&& forall|i: int, j: int|
        0 <= i < j < order.len() ==> comes_before(
            keys,
            #[trigger] order[i] as int,
            #[trigger] order[j] as int,
        )
}

/// The items of `s` in the given order.
pub open spec fn reordered<T>(s: Seq<T>, order: Seq<usize>) -> Seq<T> {
    Seq::new(order.len(), |i: int| s[order[i] as int])
}

/// Whether `order` gives the items `lo` to `hi` from first to last.
spec fn is_order_of(keys: Seq<u64>, lo: int, hi: int, order: Seq<usize>) -> bool {
    &&& order.len() == hi - lo
    &&& forall|i: int| 0 <= i < order.len() ==> lo <= #[trigger] order[i] < hi
    &&& forall|i: int, j: int|
        0 <= i < j < order.len() ==> comes_before(
            keys,
            #[trigger] order[i] as int,
            #[trigger] order[j] as int,
        )
}

fn merge(keys: &Vec<u64>, lo: usize, mid: usize, hi: usize, left: &Vec<usize>, right: &Vec<usize>)
    -> (r: Vec<usize>)
    requires
        lo <= mid <= hi <= keys.len(),
        is_order_of(keys@, lo as int, mid as int, left@),
        is_order_of(keys@, mid as int, hi as int, right@),
    ensures
        is_order_of(keys@, lo as int, hi as int, r@),
{
    let mut r: Vec<usize> = Vec::with_capacity(hi - lo);
    let mut i: usize = 0;
    let mut j: usize = 0;
    while i < left.len() || j < right.len()
        invariant
            lo <= mid <= hi <= keys.len(),
            is_order_of(keys@, lo as int, mid as int, left@),
            is_order_of(keys@, mid as int, hi as int, right@),
            i <= left.len(),
            j <= right.len(),
            r@.len() == i + j,
            forall|a: int| 0 <= a < r@.len() ==> lo <= #[trigger] r@[a] < hi,
            forall|a: int, b: int|
                0 <= a < b < r@.len() ==> comes_before(
                    keys@,
                    #[trigger] r@[a] as int,
                    #[trigger] r@[b] as int,
                ),
            forall|a: int, b: int|
                0 <= a < r@.len() && i <= b < left@.len() ==> comes_before(
                    keys@,
                    #[trigger] r@[a] as int,
                    #[trigger] left@[b] as int,
                ),
            forall|a: int, b: int|
                0 <= a < r@.len() && j <= b < right@.len() ==> comes_before(
                    keys@,
                    #[trigger] r@[a] as int,
                    #[trigger] right@[b] as int,
                ),
        decreases left.len() - i + right.len() - j,
    {
        if j >= right.len() || (i < left.len() && keys[left[i]] <= keys[right[j]]) {
            let next: usize = left[i];
            proof {
                assert forall|b: int| j <= b < right@.len() implies comes_before(
                    keys@,
                    next as int,
                    #[trigger] right@[b] as int,
                ) by {
                    if b > j {
                        assert(comes_before(keys@, right@[j as int] as int, right@[b] as int));
                    }
                }
            }
            r.push(next);
            i += 1;
        } else {
            let next: usize = right[j];
            proof {
                assert forall|b: int| i <= b < left@.len() implies comes_before(
                    keys@,
                    next as int,
                    #[trigger] left@[b] as int,
                ) by {
                    if b > i {
                        assert(comes_before(keys@, left@[i as int] as int, left@[b] as int));
                    }
                }
            }
            r.push(next);
            j += 1;
        }
    }
    r
}

fn sort_between(keys: &Vec<u64>, lo: usize, hi: usize) -> (r: Vec<usize>)
    requires
        lo <= hi <= keys.len(),
    ensures
        is_order_of(keys@, lo as int, hi as int, r@),
    decreases hi - lo,
{
    if lo == hi {
        return Vec::new();
    }
    if hi - lo == 1 {
        let mut r: Vec<usize> = Vec::new();
        r.push(lo);
        return r;
    }
    let mid: usize = lo + (hi - lo) / 2;
    let left = sort_between(keys, lo, mid);
    let right = sort_between(keys, mid, hi);
    merge(keys, lo, mid, hi, &left, &right)
}

/// The order of the items by their keys.
pub fn sort_order(keys: &Vec<u64>) -> (order: Vec<usize>)
    ensures
        is_stable_order(keys@, order@),
{
    sort_between(keys, 0, keys.len())
}

/// No two orders of the same keys differ.
pub proof fn law_order_is_unique(keys: Seq<u64>, a: Seq<usize>, b: Seq<usize>)
    requires
        is_stable_order(keys, a),
        is_stable_order(keys, b),
    ensures
        a == b,
{
    assert forall|n: int| 0 <= n <= a.len() implies a.take(n) == b.take(n) by {
        lemma_same_prefix(keys, a, b, n);
    }
    assert(a.take(a.len() as int) =~= a);
    assert(b.take(a.len() as int) =~= b);
}

proof fn lemma_same_prefix(keys: Seq<u64>, a: Seq<usize>, b: Seq<usize>, n: int)
    requires
        is_stable_order(keys, a),
        is_stable_order(keys, b),
        0 <= n <= a.len(),
    ensures
        a.take(n) == b.take(n),
    decreases n,
{
    if n > 0 {
        lemma_same_prefix(keys, a, b, n - 1);
        assert forall|i: int| 0 <= i < n - 1 implies a[i] == b[i] by {
            assert(a.take(n - 1)[i] == b.take(n - 1)[i]);
        }
        law_order_is_permutation(keys, a);
        law_order_is_permutation(keys, b);
        let x = a[n - 1];
        let y = b[n - 1];
        if x != y {
            assert(b.contains(x));
            assert(a.contains(y));
            let i = choose|i: int| 0 <= i < b.len() && b[i] == x;
            let j = choose|j: int| 0 <= j < a.len() && a[j] == y;
            if i < n - 1 {
                assert(comes_before(keys, a[i] as int, a[n - 1] as int));
            }
            if j < n - 1 {
                assert(comes_before(keys, b[j] as int, b[n - 1] as int));
            }
            assert(comes_before(keys, b[n - 1] as int, b[i] as int));
            assert(comes_before(keys, a[n - 1] as int, a[j] as int));
            assert(false);
        }
        assert(a.take(n) =~= b.take(n));
    }
}

/// An order leaves no item out: each occurs, and only once.
pub proof fn law_order_is_permutation(keys: Seq<u64>, order: Seq<usize>)
    requires
        is_stable_order(keys, order),
    ensures
        order.no_duplicates(),
        forall|k: usize| k < keys.len() ==> #[trigger] order.contains(k),
{
    assert forall|i: int, j: int|
        0 <= i < order.len() && 0 <= j < order.len() && i != j implies order[i] != order[j] by {
        if i < j {
            assert(comes_before(keys, order[i] as int, order[j] as int));
        } else {
            assert(comes_before(keys, order[j] as int, order[i] as int));
        }
    }
    let ints = order.map_values(|x: usize| x as int);
    assert(ints.no_duplicates());
    ints.unique_seq_to_set();
    let all = set_int_range(0, keys.len() as int);
    lemma_int_range(0, keys.len() as int);
    assert(ints.to_set().subset_of(all));
    lemma_subset_equality(ints.to_set(), all);
    assert forall|k: usize| k < keys.len() implies #[trigger] order.contains(k) by {
        assert(all.contains(k as int));
        assert(ints.to_set().contains(k as int));
        let i = choose|i: int| 0 <= i < ints.len() && ints[i] == k as int;
        assert(order[i] == k);
    }
}

/// After the sort the keys do not decrease.
pub proof fn law_sorted(keys: Seq<u64>, order: Seq<usize>, i: int, j: int)
    requires
        is_stable_order(keys, order),
        0 <= i <= j < order.len(),
    ensures
        reordered(keys, order)[i] <= reordered(keys, order)[j],
{
    if i < j {
        assert(comes_before(keys, order[i] as int, order[j] as int));
    }
}

/// Items whose keys are in order stay where they are.
pub proof fn law_sorted_keys_stay(keys: Seq<u64>, order: Seq<usize>)
    requires
        is_stable_order(keys, order),
        forall|i: int, j: int|
            0 <= i <= j < keys.len() ==> #[trigger] keys[i] <= #[trigger] keys[j],
    ensures
        forall|i: int| 0 <= i < order.len() ==> #[trigger] order[i] == i,
{
    let same = Seq::new(keys.len(), |i: int| i as usize);
    assert forall|i: int| 0 <= i < keys.len() implies #[trigger] same[i] == i by {
        lemma_index_fits(keys, order, i);
    }
    assert forall|i: int, j: int| 0 <= i < j < same.len() implies comes_before(
        keys,
        #[trigger] same[i] as int,
        #[trigger] same[j] as int,
    ) by {
        assert(same[i] == i && same[j] == j);
        assert(keys[i] <= keys[j]);
    }
    assert(is_stable_order(keys, same));
    law_order_is_unique(keys, order, same);
}

/// To put items in order neither loses one nor makes one up.
pub proof fn law_reordered_keeps_items<T>(
    keys: Seq<u64>,
    order: Seq<usize>,
    items: Seq<T>,
    item: T,
)
    requires
        is_stable_order(keys, order),
        items.len() == keys.len(),
    ensures
        reordered(items, order).contains(item) <==> items.contains(item),
{
    let all = reordered(items, order);
    if all.contains(item) {
        let i = choose|i: int| 0 <= i < all.len() && all[i] == item;
        assert(items[order[i] as int] == item);
    }
    if items.contains(item) {
        let k = choose|k: int| 0 <= k < items.len() && items[k] == item;
        lemma_index_fits(keys, order, k);
        let i = choose|i: int| 0 <= i < order.len() && order[i] == k as usize;
        assert(all[i] == item);
    }
}

/// An index of an item that an order places fits in `usize`.
pub proof fn lemma_index_fits(keys: Seq<u64>, order: Seq<usize>, k: int)
    requires
        is_stable_order(keys, order),
        0 <= k < keys.len(),
    ensures
        0 <= k <= usize::MAX,
        order.contains(k as usize),
{
    law_order_is_permutation(keys, order);
    if k > usize::MAX {
        lemma_int_range(0, usize::MAX as int + 1);
        let ints = order.map_values(|x: usize| x as int);
        assert(ints.no_duplicates());
        ints.unique_seq_to_set();
        let all = set_int_range(0, usize::MAX as int + 1);
        assert(ints.to_set().subset_of(all));
        lemma_len_subset(ints.to_set(), all);
    }
}

/// The sort puts a smaller key before a greater one, and leaves items of equal keys in the order in
/// which they stood.
pub proof fn law_sort_is_stable(keys: Seq<u64>, order: Seq<usize>, i: int, j: int)
    requires
        is_stable_order(keys, order),
        0 <= i < j < order.len(),
    ensures
        order[i] < keys.len(),
        order[j] < keys.len(),
        keys[order[i] as int] <= keys[order[j] as int],
        keys[order[i] as int] == keys[order[j] as int] ==> order[i] < order[j],
{
    assert(comes_before(keys, order[i] as int, order[j] as int));
}

} // verus!

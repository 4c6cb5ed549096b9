//! What is gathered from a list of items, in whatever order they are walked.

use crate::sort::{is_stable_order, law_order_is_permutation, lemma_index_fits, reordered};
use vstd::multiset::Multiset;
use vstd::prelude::*;

verus! {

/// All that `of` gives of the items, in whatever order.
pub open spec fn gathered<T, U>(items: Seq<T>, of: spec_fn(T) -> Seq<U>) -> Multiset<U>
    decreases items.len(),
{
    if items.len() == 0 {
        Multiset::empty()
    } else {
        gathered(items.drop_last(), of).add(of(items.last()).to_multiset())
    }
}

proof fn lemma_gathered_without<T, U>(items: Seq<T>, of: spec_fn(T) -> Seq<U>, i: int)
    requires
        0 <= i < items.len(),
    ensures
        gathered(items, of) == gathered(items.remove(i), of).add(of(items[i]).to_multiset()),
    decreases items.len(),
{
    let rest = items.remove(i);
    if i == items.len() - 1 {
        assert(rest =~= items.drop_last());
    } else {
        lemma_gathered_without(items.drop_last(), of, i);
        assert(rest.drop_last() =~= items.drop_last().remove(i));
        assert(rest.last() == items.last());
        assert(gathered(items, of) =~= gathered(rest, of).add(of(items[i]).to_multiset()));
    }
}

proof fn lemma_without<T>(items: Seq<T>, i: int)
    requires
        items.no_duplicates(),
        0 <= i < items.len(),
    ensures
        items.remove(i).no_duplicates(),
        forall|y: T| items.remove(i).contains(y) <==> items.contains(y) && y != items[i],
{
    let rest = items.remove(i);
    assert forall|k: int| 0 <= k < rest.len() implies rest[k] == items[if k < i {
        k
    } else {
        k + 1
    }] by {}
    assert forall|y: T| rest.contains(y) <==> items.contains(y) && y != items[i] by {
        if rest.contains(y) {
            let k = choose|k: int| 0 <= k < rest.len() && rest[k] == y;
            assert(items[if k < i {
                k
            } else {
                k + 1
            }] == y);
        }
        if items.contains(y) && y != items[i] {
            let k = choose|k: int| 0 <= k < items.len() && items[k] == y;
            assert(rest[if k < i {
                k
            } else {
                k - 1
            }] == y);
        }
    }
}

/// What is gathered does not depend on the order of the items.
pub proof fn law_gathered_in_any_order<T, U>(a: Seq<T>, b: Seq<T>, of: spec_fn(T) -> Seq<U>)
    requires
        a.no_duplicates(),
        b.no_duplicates(),
        forall|item: T| a.contains(item) <==> b.contains(item),
    ensures
        gathered(a, of) == gathered(b, of),
    decreases a.len(),
{
    if a.len() == 0 {
        if b.len() > 0 {
            assert(b.contains(b[0]));
            assert(a.contains(b[0]));
        }
    } else {
        let last = a.len() - 1;
        assert(a.contains(a[last]));
        let i = choose|i: int| 0 <= i < b.len() && b[i] == a[last];
        lemma_without(a, last);
        lemma_without(b, i);
        lemma_gathered_without(b, of, i);
        assert(a.remove(last) =~= a.drop_last());
        assert forall|item: T| a.drop_last().contains(item) <==> b.remove(i).contains(item) by {
            assert(a.remove(last).contains(item) <==> a.contains(item) && item != a[last]);
            assert(b.remove(i).contains(item) <==> b.contains(item) && item != b[i]);
            assert(a.contains(item) <==> b.contains(item));
        }
        law_gathered_in_any_order(a.drop_last(), b.remove(i), of);
    }
}

proof fn lemma_gathered_items<T>(items: Seq<T>, order: Seq<usize>)
    ensures
        gathered(order, |i: usize| seq![items[i as int]]) == reordered(items, order).to_multiset(),
    decreases order.len(),
{
    broadcast use vstd::seq_lib::group_to_multiset_ensures;

    let of = |i: usize| seq![items[i as int]];
    let all = reordered(items, order);
    if order.len() > 0 {
        let before = reordered(items, order.drop_last());
        lemma_gathered_items(items, order.drop_last());
        assert(all =~= before + seq![items[order.last() as int]]);
        vstd::seq_lib::lemma_multiset_commutative(before, of(order.last()));
    } else {
        assert(all =~= Seq::<T>::empty());
        assert(gathered(order, of) =~= Multiset::<T>::empty());
        assert(all.to_multiset() =~= Multiset::<T>::empty());
    }
}

/// To put items in order keeps each as often as it occurs.
pub proof fn law_reordered_is_permutation<T>(keys: Seq<u64>, order: Seq<usize>, items: Seq<T>)
    requires
        is_stable_order(keys, order),
        items.len() == keys.len(),
    ensures
        reordered(items, order).to_multiset() == items.to_multiset(),
{
    let same = Seq::new(keys.len(), |i: int| i as usize);
    let of = |i: usize| seq![items[i as int]];
    law_order_is_permutation(keys, order);
    assert forall|i: int| 0 <= i < keys.len() implies #[trigger] same[i] == i by {
        lemma_index_fits(keys, order, i);
    }
    assert(same.no_duplicates());
    assert forall|i: usize| order.contains(i) <==> same.contains(i) by {
        if order.contains(i) {
            let k = choose|k: int| 0 <= k < order.len() && order[k] == i;
            assert(same[i as int] == i);
        }
        if same.contains(i) {
            let k = choose|k: int| 0 <= k < same.len() && same[k] == i;
            assert(same[k] == k);
        }
    }
    law_gathered_in_any_order(order, same, of);
    lemma_gathered_items(items, order);
    lemma_gathered_items(items, same);
    assert(reordered(items, same) =~= items);
}

} // verus!

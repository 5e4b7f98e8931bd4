//! Totals over lists that do not depend on the order of the items.

use vstd::multiset::Multiset;
use vstd::prelude::*;

verus! {

/// The sum of `weight` over `items`.
pub open spec fn sum_over<T>(items: Seq<T>, weight: spec_fn(T) -> nat) -> nat
    decreases items.len(),
{
    if items.len() == 0 {
        0
    } else {
        sum_over(items.drop_last(), weight) + weight(items.last())
    }
}

/// The keys of the items that `keep` accepts, each as often as it occurs.
pub open spec fn gather<T>(
    items: Seq<T>,
    keep: spec_fn(T) -> bool,
    key: spec_fn(T) -> u64,
) -> Multiset<u64>
    decreases items.len(),
{
    if items.len() == 0 {
        Multiset::empty()
    } else if keep(items.last()) {
        gather(items.drop_last(), keep, key).insert(key(items.last()))
    } else {
        gather(items.drop_last(), keep, key)
    }
}

proof fn lemma_sum_remove<T>(items: Seq<T>, i: int, weight: spec_fn(T) -> nat)
    requires
        0 <= i < items.len(),
    ensures
        sum_over(items, weight) == sum_over(items.remove(i), weight) + weight(items[i]),
    decreases items.len(),
{
    if i == items.len() - 1 {
        assert(items.remove(i) =~= items.drop_last());
    } else {
        lemma_sum_remove(items.drop_last(), i, weight);
        assert(items.remove(i).drop_last() =~= items.drop_last().remove(i));
    }
}

proof fn lemma_gather_remove<T>(
    items: Seq<T>,
    i: int,
    keep: spec_fn(T) -> bool,
    key: spec_fn(T) -> u64,
)
    requires
        0 <= i < items.len(),
    ensures
        gather(items, keep, key) == if keep(items[i]) {
            gather(items.remove(i), keep, key).insert(key(items[i]))
        } else {
            gather(items.remove(i), keep, key)
        },
    decreases items.len(),
{
    if i == items.len() - 1 {
        assert(items.remove(i) =~= items.drop_last());
    } else {
        lemma_gather_remove(items.drop_last(), i, keep, key);
        assert(items.remove(i).drop_last() =~= items.drop_last().remove(i));
        assert(gather(items, keep, key) =~= if keep(items[i]) {
            gather(items.remove(i), keep, key).insert(key(items[i]))
        } else {
            gather(items.remove(i), keep, key)
        });
    }
}

/// A place in `b` of the last item of `a`, where `b` rearranges `a`.
proof fn lemma_find_last<T>(a: Seq<T>, b: Seq<T>) -> (i: int)
    requires
        a.len() > 0,
        a.to_multiset() == b.to_multiset(),
    ensures
        0 <= i < b.len(),
        b[i] == a.last(),
        a.drop_last().to_multiset() == b.remove(i).to_multiset(),
{
    vstd::seq_lib::to_multiset_contains(a, a.last());
    vstd::seq_lib::to_multiset_contains(b, a.last());
    assert(a[a.len() - 1] == a.last());
    let i = choose|i: int| 0 <= i < b.len() && b[i] == a.last();
    vstd::seq_lib::to_multiset_remove(b, i);
    vstd::seq_lib::to_multiset_remove(a, a.len() - 1);
    assert(a.remove(a.len() - 1) =~= a.drop_last());
    i
}

/// Two lists that rearrange one another have the same length.
pub proof fn lemma_permuted_len<T>(a: Seq<T>, b: Seq<T>)
    requires
        a.to_multiset() == b.to_multiset(),
    ensures
        a.len() == b.len(),
{
    vstd::seq_lib::to_multiset_len(a);
    vstd::seq_lib::to_multiset_len(b);
}

/// Two lists that rearrange one another hold the same items.
pub proof fn lemma_permuted_contains<T>(a: Seq<T>, b: Seq<T>, item: T)
    requires
        a.to_multiset() == b.to_multiset(),
    ensures
        a.contains(item) == b.contains(item),
{
    vstd::seq_lib::to_multiset_contains(a, item);
    vstd::seq_lib::to_multiset_contains(b, item);
}

/// Rearranging a list keeps its sums.
pub proof fn lemma_sum_permuted<T>(a: Seq<T>, b: Seq<T>, weight: spec_fn(T) -> nat)
    requires
        a.to_multiset() == b.to_multiset(),
    ensures
        sum_over(a, weight) == sum_over(b, weight),
    decreases a.len(),
{
    lemma_permuted_len(a, b);
    if a.len() > 0 {
        let i = lemma_find_last(a, b);
        lemma_sum_permuted(a.drop_last(), b.remove(i), weight);
        lemma_sum_remove(b, i, weight);
    }
}

/// Rearranging a list keeps what is gathered from it.
pub proof fn lemma_gather_permuted<T>(
    a: Seq<T>,
    b: Seq<T>,
    keep: spec_fn(T) -> bool,
    key: spec_fn(T) -> u64,
)
    requires
        a.to_multiset() == b.to_multiset(),
    ensures
        gather(a, keep, key) == gather(b, keep, key),
    decreases a.len(),
{
    lemma_permuted_len(a, b);
    if a.len() > 0 {
        let i = lemma_find_last(a, b);
        lemma_gather_permuted(a.drop_last(), b.remove(i), keep, key);
        lemma_gather_remove(b, i, keep, key);
    }
}

/// Mapping two lists that rearrange one another gives lists that do so too.
pub proof fn lemma_map_permuted<T, U>(a: Seq<T>, b: Seq<T>, f: spec_fn(T) -> U)
    requires
        a.to_multiset() == b.to_multiset(),
    ensures
        a.map_values(f).to_multiset() == b.map_values(f).to_multiset(),
    decreases a.len(),
{
    lemma_permuted_len(a, b);
    if a.len() > 0 {
        let i = lemma_find_last(a, b);
        lemma_map_permuted(a.drop_last(), b.remove(i), f);
        let (fa, fb) = (a.map_values(f), b.map_values(f));
        assert(fa.remove(a.len() - 1) =~= a.drop_last().map_values(f));
        assert(fb.remove(i) =~= b.remove(i).map_values(f));
        vstd::seq_lib::to_multiset_remove(fa, a.len() - 1);
        vstd::seq_lib::to_multiset_remove(fb, i);
        vstd::seq_lib::to_multiset_contains(fa, f(a.last()));
        vstd::seq_lib::to_multiset_contains(fb, f(a.last()));
        assert(fa[a.len() - 1] == f(a.last()));
        assert(fb[i] == f(a.last()));
        assert(fa.to_multiset() =~= fa.to_multiset().remove(f(a.last())).insert(f(a.last())));
        assert(fb.to_multiset() =~= fb.to_multiset().remove(f(a.last())).insert(f(a.last())));
    } else {
        assert(a.map_values(f) =~= b.map_values(f));
    }
}

} // verus!

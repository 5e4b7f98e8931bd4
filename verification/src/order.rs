//! Total preorders, sorting by them, and the lexicographic order of byte strings.

use vstd::prelude::*;

verus! {

/// Values that a total preorder ranks.
pub trait Ranked: Copy {
    /// `self` comes no later than `other`.
    spec fn leq(self, other: Self) -> bool;

    proof fn lemma_total(a: Self, b: Self)
        ensures
            a.leq(b) || b.leq(a),
    ;

    proof fn lemma_transitive(a: Self, b: Self, c: Self)
        requires
            a.leq(b),
            b.leq(c),
        ensures
            a.leq(c),
    ;

    fn is_leq(self, other: Self) -> (r: bool)
        ensures
            r == self.leq(other),
    ;
}

/// Whether no item stands before one that ranks ahead of it.
pub open spec fn is_ascending<T: Ranked>(items: Seq<T>) -> bool {
    forall|i: int, j: int|
        0 <= i <= j < items.len() ==> #[trigger] items[i].leq(#[trigger] items[j])
}

/// Merges two ascending lists into one.
fn merge<T: Ranked>(left: &Vec<T>, right: &Vec<T>) -> (merged: Vec<T>)
    requires
        is_ascending(left@),
        is_ascending(right@),
    ensures
        is_ascending(merged@),
        merged@.to_multiset() == left@.to_multiset().add(right@.to_multiset()),
{
    let mut merged: Vec<T> = Vec::new();
    let mut i: usize = 0;
    let mut j: usize = 0;
    proof {
        assert(left@.take(0) =~= Seq::empty());
        assert(right@.take(0) =~= Seq::empty());
        vstd::seq_lib::to_multiset_len(Seq::<T>::empty());
        assert(merged@.to_multiset() =~= left@.take(0).to_multiset().add(
            right@.take(0).to_multiset(),
        ));
    }
    while i < left.len() || j < right.len()
        invariant
            i <= left.len(),
            j <= right.len(),
            is_ascending(left@),
            is_ascending(right@),
            is_ascending(merged@),
            forall|k: int, l: int|
                0 <= k < merged.len() && i <= l < left.len() ==> #[trigger] merged@[k].leq(
                    #[trigger] left@[l],
                ),
            forall|k: int, l: int|
                0 <= k < merged.len() && j <= l < right.len() ==> #[trigger] merged@[k].leq(
                    #[trigger] right@[l],
                ),
            merged@.to_multiset() == left@.take(i as int).to_multiset().add(
                right@.take(j as int).to_multiset(),
            ),
        decreases left.len() - i + right.len() - j,
    {
        let take_left = if i == left.len() {
            false
        } else if j == right.len() {
            true
        } else {
            left[i].is_leq(right[j])
        };
        let ghost before = merged@;
        if take_left {
            let next = left[i];
            proof {
                lemma_merge_step(before, left@, i as int, right@, j as int);
            }
            merged.push(next);
            i = i + 1;
        } else {
            let next = right[j];
            proof {
                lemma_merge_step(before, right@, j as int, left@, i as int);
                assert(before.push(next).to_multiset() =~= left@.take(i as int).to_multiset().add(
                    right@.take(j + 1).to_multiset(),
                ));
            }
            merged.push(next);
            j = j + 1;
        }
    }
    proof {
        assert(left@.take(left.len() as int) =~= left@);
        assert(right@.take(right.len() as int) =~= right@);
    }
    merged
}

/// Appending the head of `from` to what has been merged keeps the invariant of a merge.
proof fn lemma_merge_step<T: Ranked>(
    merged: Seq<T>,
    from: Seq<T>,
    i: int,
    other: Seq<T>,
    j: int,
)
    requires
        0 <= i < from.len(),
        0 <= j <= other.len(),
        is_ascending(merged),
        is_ascending(from),
        is_ascending(other),
        forall|k: int| 0 <= k < merged.len() ==> #[trigger] merged[k].leq(from[i]),
        j < other.len() ==> from[i].leq(other[j]) || !other[j].leq(from[i]),
        merged.to_multiset() == from.take(i).to_multiset().add(other.take(j).to_multiset())
            || merged.to_multiset() == other.take(j).to_multiset().add(from.take(i).to_multiset()),
    ensures
        is_ascending(merged.push(from[i])),
        forall|l: int| i < l < from.len() ==> from[i].leq(#[trigger] from[l]),
        forall|l: int| j <= l < other.len() ==> from[i].leq(#[trigger] other[l]),
        merged.push(from[i]).to_multiset() == from.take(i + 1).to_multiset().add(
            other.take(j).to_multiset(),
        ),
{
    let next = from[i];
    let extended = merged.push(next);
    T::lemma_total(next, next);
    assert forall|a: int, b: int| 0 <= a <= b < extended.len() implies #[trigger] extended[a].leq(
        #[trigger] extended[b],
    ) by {
        if b < merged.len() {
            assert(merged[a].leq(merged[b]));
        } else if a < merged.len() {
            assert(merged[a].leq(next));
        }
    }
    assert forall|l: int| j <= l < other.len() implies next.leq(#[trigger] other[l]) by {
        T::lemma_total(next, other[j]);
        assert(other[j].leq(other[l]));
        T::lemma_transitive(next, other[j], other[l]);
    }
    assert(from.take(i + 1) =~= from.take(i).push(next));
    vstd::seq_lib::to_multiset_build(from.take(i), next);
    vstd::seq_lib::to_multiset_build(merged, next);
    assert(extended.to_multiset() =~= from.take(i + 1).to_multiset().add(
        other.take(j).to_multiset(),
    ));
}

/// The items of `items` in ascending order.
pub fn sort_ascending<T: Ranked>(items: &[T]) -> (sorted: Vec<T>)
    ensures
        is_ascending(sorted@),
        sorted@.to_multiset() == items@.to_multiset(),
    decreases items.len(),
{
    if items.len() <= 1 {
        let sorted = vstd::slice::slice_to_vec(items);
        proof {
            assert(sorted@ =~= items@);
            if sorted@.len() == 1 {
                T::lemma_total(sorted@[0], sorted@[0]);
            }
        }
        return sorted;
    }
    let mid: usize = items.len() / 2;
    let left = sort_ascending(vstd::slice::slice_subrange(items, 0, mid));
    let right = sort_ascending(vstd::slice::slice_subrange(items, mid, items.len()));
    proof {
        let first = items@.subrange(0, mid as int);
        let second = items@.subrange(mid as int, items@.len() as int);
        assert(first + second =~= items@);
        vstd::seq_lib::lemma_multiset_commutative(first, second);
    }
    merge(&left, &right)
}

impl Ranked for u64 {
    open spec fn leq(self, other: Self) -> bool {
        self <= other
    }

    proof fn lemma_total(a: Self, b: Self) {
    }

    proof fn lemma_transitive(a: Self, b: Self, c: Self) {
    }

    fn is_leq(self, other: Self) -> (r: bool) {
        self <= other
    }
}

/// Lexicographic order of byte strings: the first byte in which they differ decides, and a prefix
/// comes before what it begins.
pub open spec fn lex_le(a: Seq<u8>, b: Seq<u8>) -> bool
    decreases a.len(),
{
    if a.len() == 0 {
        true
    } else if b.len() == 0 {
        false
    } else if a[0] == b[0] {
        lex_le(a.skip(1), b.skip(1))
    } else {
        a[0] < b[0]
    }
}

pub proof fn lemma_lex_total(a: Seq<u8>, b: Seq<u8>)
    ensures
        lex_le(a, b) || lex_le(b, a),
    decreases a.len(),
{
    if a.len() > 0 && b.len() > 0 {
        lemma_lex_total(a.skip(1), b.skip(1));
    }
}

pub proof fn lemma_lex_transitive(a: Seq<u8>, b: Seq<u8>, c: Seq<u8>)
    requires
        lex_le(a, b),
        lex_le(b, c),
    ensures
        lex_le(a, c),
    decreases a.len(),
{
    if a.len() > 0 && b.len() > 0 && c.len() > 0 && a[0] == b[0] && b[0] == c[0] {
        lemma_lex_transitive(a.skip(1), b.skip(1), c.skip(1));
    }
}

pub proof fn lemma_lex_antisymmetric(a: Seq<u8>, b: Seq<u8>)
    requires
        lex_le(a, b),
        lex_le(b, a),
    ensures
        a == b,
    decreases a.len(),
{
    if a.len() > 0 && b.len() > 0 {
        lemma_lex_antisymmetric(a.skip(1), b.skip(1));
        assert(a =~= seq![a[0]] + a.skip(1));
        assert(b =~= seq![b[0]] + b.skip(1));
    } else {
        assert(a =~= b);
    }
}

/// Whether `a` comes no later than `b` in lexicographic order.
pub fn is_lex_le(a: &Vec<u8>, b: &Vec<u8>) -> (r: bool)
    ensures
        r == lex_le(a@, b@),
{
    let mut i: usize = 0;
    proof {
        assert(a@.skip(0) =~= a@);
        assert(b@.skip(0) =~= b@);
    }
    while i < a.len() && i < b.len()
        invariant
            i <= a.len(),
            i <= b.len(),
            lex_le(a@, b@) == lex_le(a@.skip(i as int), b@.skip(i as int)),
        decreases a.len() - i,
    {
        if a[i] != b[i] {
            return a[i] < b[i];
        }
        proof {
            assert(a@.skip(i as int).skip(1) =~= a@.skip(i + 1));
            assert(b@.skip(i as int).skip(1) =~= b@.skip(i + 1));
        }
        i = i + 1;
    }
    i == a.len()
}

/// Whether two byte strings are the same.
pub fn bytes_equal(a: &Vec<u8>, b: &Vec<u8>) -> (equal: bool)
    ensures
        equal == (a@ == b@),
{
    if a.len() != b.len() {
        return false;
    }
    let mut i: usize = 0;
    while i < a.len()
        invariant
            i <= a.len(),
            a.len() == b.len(),
            forall|j: int| 0 <= j < i ==> a@[j] == b@[j],
        decreases a.len() - i,
    {
        if a[i] != b[i] {
            return false;
        }
        i = i + 1;
    }
    proof {
        assert(a@ =~= b@);
    }
    true
}

/// One byte string comes no later than another if it begins it, or if it is smaller in the first
/// byte in which they differ; and only then.
pub proof fn lemma_lex_means(a: Seq<u8>, b: Seq<u8>)
    ensures
        lex_le(a, b) <==> (a.len() <= b.len() && forall|i: int|
            0 <= i < a.len() ==> #[trigger] a[i] == b[i]) || exists|k: int|
            {
                &&& 0 <= k < a.len()
                &&& k < b.len()
                &&& #[trigger] a[k] < b[k]
                &&& forall|i: int| 0 <= i < k ==> #[trigger] a[i] == b[i]
            },
    decreases a.len(),
{
    if a.len() > 0 && b.len() > 0 && a[0] == b[0] {
        let (rest_a, rest_b) = (a.skip(1), b.skip(1));
        lemma_lex_means(rest_a, rest_b);
        if lex_le(a, b) {
            if exists|k: int|
                {
                    &&& 0 <= k < rest_a.len()
                    &&& k < rest_b.len()
                    &&& #[trigger] rest_a[k] < rest_b[k]
                    &&& forall|i: int| 0 <= i < k ==> #[trigger] rest_a[i] == rest_b[i]
                } {
                let k = choose|k: int|
                    {
                        &&& 0 <= k < rest_a.len()
                        &&& k < rest_b.len()
                        &&& #[trigger] rest_a[k] < rest_b[k]
                        &&& forall|i: int| 0 <= i < k ==> #[trigger] rest_a[i] == rest_b[i]
                    };
                assert(a[k + 1] < b[k + 1]);
                assert forall|i: int| 0 <= i < k + 1 implies #[trigger] a[i] == b[i] by {
                    if i > 0 {
                        assert(rest_a[i - 1] == rest_b[i - 1]);
                    }
                }
            } else {
                assert forall|i: int| 0 <= i < a.len() implies #[trigger] a[i] == b[i] by {
                    if i > 0 {
                        assert(rest_a[i - 1] == rest_b[i - 1]);
                    }
                }
            }
        }
        if a.len() <= b.len() && forall|i: int| 0 <= i < a.len() ==> #[trigger] a[i] == b[i] {
            assert forall|i: int| 0 <= i < rest_a.len() implies #[trigger] rest_a[i]
                == rest_b[i] by {
                assert(a[i + 1] == b[i + 1]);
            }
        }
        if exists|k: int|
            {
                &&& 0 <= k < a.len()
                &&& k < b.len()
                &&& #[trigger] a[k] < b[k]
                &&& forall|i: int| 0 <= i < k ==> #[trigger] a[i] == b[i]
            } {
            let k = choose|k: int|
                {
                    &&& 0 <= k < a.len()
                    &&& k < b.len()
                    &&& #[trigger] a[k] < b[k]
                    &&& forall|i: int| 0 <= i < k ==> #[trigger] a[i] == b[i]
                };
            assert(rest_a[k - 1] < rest_b[k - 1]);
            assert forall|i: int| 0 <= i < k - 1 implies #[trigger] rest_a[i] == rest_b[i] by {
                assert(a[i + 1] == b[i + 1]);
            }
        }
    } else if a.len() > 0 && b.len() > 0 {
        if a[0] < b[0] {
            assert(a[0] < b[0]);
        }
    }
}

/// Ascending numbers never decrease.
pub proof fn lemma_ascending_numbers(items: Seq<u64>, i: int, j: int)
    requires
        is_ascending(items),
        0 <= i <= j < items.len(),
    ensures
        items[i] <= items[j],
{
    assert(items[i].leq(items[j]));
}

} // verus!

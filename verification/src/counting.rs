//! Counting items of a sequence.

use vstd::prelude::*;

verus! {

/// How many items satisfy the predicate.
pub open spec fn count_where<A>(items: Seq<A>, keep: spec_fn(A) -> bool) -> nat
    decreases items.len(),
{
    if items.len() == 0 {
        0
    } else {
        count_where(items.drop_last(), keep) + if keep(items.last()) {
            1nat
        } else {
            0nat
        }
    }
}

/// The count over a longer prefix.
pub proof fn lemma_count_take<A>(items: Seq<A>, keep: spec_fn(A) -> bool, i: int)
    requires
        0 <= i < items.len(),
    ensures
        count_where(items.take(i + 1), keep) == count_where(items.take(i), keep) + if keep(items[i]) {
            1nat
        } else {
            0nat
        },
{
    assert(items.take(i + 1).drop_last() =~= items.take(i));
}

/// The count after one more item.
pub proof fn lemma_count_push<A>(items: Seq<A>, keep: spec_fn(A) -> bool, x: A)
    ensures
        count_where(items.push(x), keep) == count_where(items, keep) + if keep(x) {
            1nat
        } else {
            0nat
        },
{
    assert(items.push(x).drop_last() =~= items);
}

/// No more are counted than there are.
pub proof fn lemma_count_bound<A>(items: Seq<A>, keep: spec_fn(A) -> bool)
    ensures
        count_where(items, keep) <= items.len(),
    decreases items.len(),
{
    if items.len() > 0 {
        lemma_count_bound(items.drop_last(), keep);
    }
}

/// A prefix holds no more of them than the whole.
pub proof fn lemma_count_prefix<A>(items: Seq<A>, keep: spec_fn(A) -> bool, i: int)
    requires
        0 <= i <= items.len(),
    ensures
        count_where(items.take(i), keep) <= count_where(items, keep),
    decreases items.len() - i,
{
    if i < items.len() {
        lemma_count_take(items, keep, i);
        lemma_count_prefix(items, keep, i + 1);
    } else {
        assert(items.take(i) =~= items);
    }
}

/// Predicates that agree on the items count the same.
pub proof fn lemma_count_same<A>(items: Seq<A>, one: spec_fn(A) -> bool, other: spec_fn(A) -> bool)
    requires
        forall|i: int| 0 <= i < items.len() ==> one(#[trigger] items[i]) == other(items[i]),
    ensures
        count_where(items, one) == count_where(items, other),
    decreases items.len(),
{
    if items.len() > 0 {
        let init = items.drop_last();
        assert forall|i: int| 0 <= i < init.len() implies one(#[trigger] init[i]) == other(init[i]) by {
            assert(init[i] == items[i]);
        }
        assert(items[items.len() - 1] == items.last());
        lemma_count_same(init, one, other);
    }
}

/// A predicate that splits in two exclusive ones counts what they count together.
pub proof fn lemma_count_split<A>(
    items: Seq<A>,
    whole: spec_fn(A) -> bool,
    one: spec_fn(A) -> bool,
    other: spec_fn(A) -> bool,
)
    requires
        forall|i: int|
            0 <= i < items.len() ==> whole(#[trigger] items[i]) == (one(items[i]) || other(items[i])) && !(
            one(items[i]) && other(items[i])),
    ensures
        count_where(items, whole) == count_where(items, one) + count_where(items, other),
    decreases items.len(),
{
    if items.len() > 0 {
        let init = items.drop_last();
        assert forall|i: int| 0 <= i < init.len() implies whole(#[trigger] init[i]) == (one(init[i])
            || other(init[i])) && !(one(init[i]) && other(init[i])) by {
            assert(init[i] == items[i]);
        }
        assert(items[items.len() - 1] == items.last());
        lemma_count_split(init, whole, one, other);
    }
}

/// What all satisfy counts all.
pub proof fn lemma_count_all<A>(items: Seq<A>, keep: spec_fn(A) -> bool)
    requires
        forall|i: int| 0 <= i < items.len() ==> keep(#[trigger] items[i]),
    ensures
        count_where(items, keep) == items.len(),
    decreases items.len(),
{
    if items.len() > 0 {
        let init = items.drop_last();
        assert forall|i: int| 0 <= i < init.len() implies keep(#[trigger] init[i]) by {
            assert(init[i] == items[i]);
        }
        assert(items[items.len() - 1] == items.last());
        lemma_count_all(init, keep);
    }
}

/// Joined sequences count what they count each.
pub proof fn lemma_count_add<A>(one: Seq<A>, other: Seq<A>, keep: spec_fn(A) -> bool)
    ensures
        count_where(one + other, keep) == count_where(one, keep) + count_where(other, keep),
    decreases other.len(),
{
    if other.len() > 0 {
        assert((one + other).drop_last() =~= one + other.drop_last());
        assert((one + other).last() == other.last());
        lemma_count_add(one, other.drop_last(), keep);
    } else {
        assert(one + other =~= one);
    }
}

/// An inserted item counts where it satisfies the predicate.
pub proof fn lemma_count_insert<A>(items: Seq<A>, keep: spec_fn(A) -> bool, place: int, x: A)
    requires
        0 <= place <= items.len(),
    ensures
        count_where(items.insert(place, x), keep) == count_where(items, keep) + if keep(x) {
            1nat
        } else {
            0nat
        },
{
    let front = items.take(place);
    let back = items.skip(place);
    assert(items =~= front + back);
    assert(items.insert(place, x) =~= front.push(x) + back);
    lemma_count_add(front, back, keep);
    lemma_count_add(front.push(x), back, keep);
    lemma_count_push(front, keep, x);
}

/// Whether `value` is the item at place `k` (from 0) when the items are put in ascending order.
pub open spec fn is_kth_smallest(items: Seq<usize>, k: int, value: usize) -> bool {
    count_where(items, |x: usize| x < value) <= k < count_where(items, |x: usize| x <= value)
}

/// At most one value is at a place of the ascending order.
pub proof fn lemma_kth_unique(items: Seq<usize>, k: int, v: usize, w: usize)
    requires
        is_kth_smallest(items, k, v),
        is_kth_smallest(items, k, w),
    ensures
        v == w,
{
    if v < w {
        lemma_count_less(items, v, w);
    } else if w < v {
        lemma_count_less(items, w, v);
    }
}

proof fn lemma_count_less(items: Seq<usize>, v: usize, w: usize)
    requires
        v < w,
    ensures
        count_where(items, |x: usize| x <= v) <= count_where(items, |x: usize| x < w),
    decreases items.len(),
{
    if items.len() > 0 {
        lemma_count_less(items.drop_last(), v, w);
    }
}

/// Whether the numbers ascend.
pub open spec fn ascending(items: Seq<usize>) -> bool {
    forall|i: int, j: int| 0 <= i <= j < items.len() ==> #[trigger] items[i] <= #[trigger] items[j]
}

proof fn lemma_count_at_most<A>(items: Seq<A>, keep: spec_fn(A) -> bool, n: int)
    requires
        0 <= n,
        forall|i: int| n <= i < items.len() ==> !keep(#[trigger] items[i]),
    ensures
        count_where(items, keep) <= n,
    decreases items.len(),
{
    if items.len() > 0 {
        let init = items.drop_last();
        assert(items[items.len() - 1] == items.last());
        if items.len() - 1 >= n {
            assert forall|i: int| n <= i < init.len() implies !keep(#[trigger] init[i]) by {
                assert(init[i] == items[i]);
            }
            lemma_count_at_most(init, keep, n);
        } else {
            lemma_count_bound(items, keep);
        }
    }
}

/// An ascending list has at each place the value that belongs there.
pub proof fn lemma_ascending_kth(items: Seq<usize>, k: int)
    requires
        ascending(items),
        0 <= k < items.len(),
    ensures
        is_kth_smallest(items, k, items[k]),
{
    let value = items[k];
    let less = |x: usize| x < value;
    let most = |x: usize| x <= value;
    lemma_count_at_most(items, less, k);
    let front = items.take(k + 1);
    assert forall|i: int| 0 <= i < front.len() implies most(#[trigger] front[i]) by {
        assert(front[i] == items[i]);
        assert(items[i] <= items[k]);
    }
    lemma_count_all(front, most);
    lemma_count_prefix(items, most, k + 1);
}

/// The numbers in ascending order.
pub fn sort_ascending(items: &Vec<usize>) -> (sorted: Vec<usize>)
    ensures
        ascending(sorted@),
        sorted@.len() == items@.len(),
        forall|keep: spec_fn(usize) -> bool| #[trigger]
            count_where(sorted@, keep) == count_where(items@, keep),
{
    let mut sorted: Vec<usize> = Vec::new();
    let mut i: usize = 0;
    assert(items@.take(0) =~= sorted@);
    while i < items.len()
        invariant
            i <= items@.len(),
            ascending(sorted@),
            sorted@.len() == i,
            forall|keep: spec_fn(usize) -> bool| #[trigger]
                count_where(sorted@, keep) == count_where(items@.take(i as int), keep),
        decreases items.len() - i,
    {
        let item = items[i];
        let mut place: usize = 0;
        while place < sorted.len() && sorted[place] < item
            invariant
                place <= sorted@.len(),
                forall|j: int| 0 <= j < place ==> #[trigger] sorted@[j] < item,
            decreases sorted.len() - place,
        {
            place = place + 1;
        }
        let ghost before = sorted@;
        sorted.insert(place, item);
        proof {
            assert forall|a: int, b: int| 0 <= a <= b < sorted@.len() implies #[trigger] sorted@[a]
                <= #[trigger] sorted@[b] by {
                let c: int = if a < place {
                    a
                } else {
                    a - 1
                };
                let d: int = if b < place {
                    b
                } else {
                    b - 1
                };
                if a == place {
                    if b > place {
                        assert(before[place as int] <= before[d]);
                    }
                } else if b == place {
                    assert(before[a] < item);
                } else {
                    assert(before[c] <= before[d]);
                }
            }
            assert forall|keep: spec_fn(usize) -> bool| #[trigger]
                count_where(sorted@, keep) == count_where(items@.take(i + 1), keep) by {
                lemma_count_insert(before, keep, place as int, item);
                lemma_count_take(items@, keep, i as int);
                assert(count_where(before, keep) == count_where(items@.take(i as int), keep));
            }
        }
        i = i + 1;
    }
    assert(items@.take(items@.len() as int) =~= items@);
    sorted
}

} // verus!

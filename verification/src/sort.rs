//! Sorting from the largest value down.
use crate::order::{le, lemma_order, less, total_order};
use vstd::prelude::*;

verus! {

/// No entry of `values` stands before a larger one.
pub open spec fn descending<T: Ord>(values: Seq<T>) -> bool {
    forall|i: int, j: int|
        #![trigger values[i], values[j]]
        0 <= i <= j < values.len() ==> le(values[j], values[i])
}

/// `after` holds the entries of `before` in another order: entry `i` of
/// `after` is entry `source[i]` of `before`, and no entry is taken twice.
pub open spec fn rearranged<T>(before: Seq<T>, after: Seq<T>, source: Seq<int>) -> bool {
    &&& after.len() == before.len()
    &&& source.len() == before.len()
    &&& source.no_duplicates()
    &&& forall|i: int|
        0 <= i < after.len() ==> 0 <= #[trigger] source[i] < before.len() && after[i]
            == before[source[i]]
}

/// Sorts `values` from the largest down: afterwards no entry stands before
/// a larger one, and the entries are those that were there before.
pub fn sort_descending<T: Ord + Copy>(values: &mut Vec<T>)
    requires
        total_order::<T>(),
    ensures
        descending(final(values)@),
        exists|source: Seq<int>| rearranged(old(values)@, final(values)@, source),
{
    let ghost before = values@;
    let ghost mut source: Seq<int> = Seq::new(before.len(), |i: int| i);
    let n = values.len();
    let mut sorted: usize = 0;
    while sorted < n
        invariant
            total_order::<T>(),
            values@.len() == n,
            sorted <= n,
            rearranged(before, values@, source),
            forall|i: int, j: int|
                #![trigger values@[i], values@[j]]
                0 <= i <= j < sorted ==> le(values@[j], values@[i]),
            forall|i: int, j: int|
                #![trigger values@[i], values@[j]]
                0 <= i < sorted <= j < n ==> le(values@[j], values@[i]),
        decreases n - sorted,
    {
        let mut top: usize = sorted;
        let mut next: usize = sorted + 1;
        proof {
            lemma_order(values@[sorted as int], values@[sorted as int], values@[sorted as int]);
        }
        while next < n
            invariant
                total_order::<T>(),
                values@.len() == n,
                sorted <= top < next <= n,
                forall|i: int| sorted <= i < next ==> le(#[trigger] values@[i], values@[top as int]),
            decreases n - next,
        {
            if less(&values[top], &values[next]) {
                proof {
                    assert forall|i: int| sorted <= i < next + 1 implies le(
                        #[trigger] values@[i],
                        values@[next as int],
                    ) by {
                        lemma_order(values@[i], values@[top as int], values@[next as int]);
                        lemma_order(values@[next as int], values@[next as int], values@[next as int]);
                    }
                }
                top = next;
            } else {
                proof {
                    lemma_order(values@[top as int], values@[next as int], values@[top as int]);
                }
            }
            next += 1;
        }
        let ghost unsorted = values@;
        let ghost taken = source;
        let first = values[sorted];
        let largest = values[top];
        values.set(sorted, largest);
        values.set(top, first);
        proof {
            source = taken.update(sorted as int, taken[top as int]).update(
                top as int,
                taken[sorted as int],
            );
            assert forall|i: int, j: int|
                #![trigger values@[i], values@[j]]
                0 <= i < sorted + 1 <= j < n implies le(values@[j], values@[i]) by {
                let moved = if j == top { sorted as int } else { j };
                assert(values@[j] == unsorted[moved]);
                if i < sorted {
                    assert(le(unsorted[moved], unsorted[i]));
                } else {
                    assert(le(unsorted[moved], unsorted[top as int]));
                }
            }
            assert forall|i: int, j: int|
                #![trigger values@[i], values@[j]]
                0 <= i <= j < sorted + 1 implies le(values@[j], values@[i]) by {
                if j < sorted {
                    assert(le(unsorted[j], unsorted[i]));
                } else if i < sorted {
                    assert(le(unsorted[top as int], unsorted[i]));
                } else {
                    lemma_order(values@[i], values@[i], values@[i]);
                }
            }
        }
        sorted += 1;
    }
}

} // verus!

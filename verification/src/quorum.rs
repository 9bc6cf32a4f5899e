//! The value that a strict majority of a member set is guaranteed to hold.
//!
//! Every member reports a value, and reporting `x` vouches for every value
//! at or below `x` as well. A value is guaranteed once a strict majority of
//! the members vouch for it, and the majority value is the largest
//! guaranteed value.
use crate::cluster::ClusterMembers;
use crate::node::NodeId;
use crate::order::{le, lemma_order, lt, total_order};
use crate::sort::{rearranged, sort_descending};
use vstd::prelude::*;
use vstd::set_lib::{lemma_len_subset, lemma_subset_equality};
use vstd::std_specs::btree::spec_btree_keys_iter;
use vstd::std_specs::iter::IteratorSpec;

verus! {

/// The least number of members that is more than half of `n` members.
pub open spec fn majority(n: nat) -> nat {
    n / 2 + 1
}

/// The rank, counted from zero from the largest value down, at which the
/// majority value of `n` members stands.
pub open spec fn middle_rank(n: nat) -> int {
    n as int / 2
}

/// The members whose reported value is at or above `x`.
pub open spec fn holders<T: Ord>(
    members: Set<NodeId>,
    values: spec_fn(NodeId) -> T,
    x: T,
) -> Set<NodeId> {
    members.filter(|n: NodeId| le(x, values(n)))
}

/// A strict majority of `members` reports a value at or above `x`.
pub open spec fn guaranteed<T: Ord>(
    members: Set<NodeId>,
    values: spec_fn(NodeId) -> T,
    x: T,
) -> bool {
    holders(members, values, x).len() >= majority(members.len())
}

/// `x` is guaranteed, and no guaranteed value lies above it.
pub open spec fn is_majority_value<T: Ord>(
    members: Set<NodeId>,
    values: spec_fn(NodeId) -> T,
    x: T,
) -> bool {
    &&& guaranteed(members, values, x)
    &&& forall|y: T| #[trigger] guaranteed(members, values, y) ==> le(y, x)
}

/// The largest value that a strict majority of `members` is guaranteed to
/// hold.
pub open spec fn majority_value<T: Ord>(members: Set<NodeId>, values: spec_fn(NodeId) -> T) -> T {
    choose|x: T| is_majority_value(members, values, x)
}

/// `order` lists every member once, from the largest reported value down.
pub open spec fn ranking<T: Ord>(
    members: Set<NodeId>,
    values: spec_fn(NodeId) -> T,
    order: Seq<NodeId>,
) -> bool {
    &&& order.no_duplicates()
    &&& order.to_set() == members
    &&& forall|i: int, j: int|
        #![trigger order[i], order[j]]
        0 <= i <= j < order.len() ==> le(values(order[j]), values(order[i]))
}

/// A member set has at most one majority value.
pub proof fn lemma_majority_value_unique<T: Ord>(
    members: Set<NodeId>,
    values: spec_fn(NodeId) -> T,
    x: T,
)
    requires
        total_order::<T>(),
        is_majority_value(members, values, x),
    ensures
        majority_value(members, values) == x,
{
    let y = majority_value(members, values);
    assert(is_majority_value(members, values, y));
    assert(le(x, y) && le(y, x));
    lemma_order(x, y, x);
}

/// Among members ranked from the largest value down, the first `count`
/// all report a value at or above the one at rank `count - 1`.
proof fn lemma_leaders_hold<T: Ord>(
    members: Set<NodeId>,
    values: spec_fn(NodeId) -> T,
    order: Seq<NodeId>,
    count: int,
)
    requires
        total_order::<T>(),
        ranking(members, values, order),
        0 < count <= order.len(),
    ensures
        members.finite(),
        members.len() == order.len(),
        holders(members, values, values(order[count - 1])).len() >= count,
{
    let x = values(order[count - 1]);
    let leaders = order.subrange(0, count);
    order.unique_seq_to_set();
    assert(leaders.no_duplicates());
    leaders.unique_seq_to_set();
    assert forall|n: NodeId| leaders.to_set().contains(n) implies holders(
        members,
        values,
        x,
    ).contains(n) by {
        let i = choose|i: int| 0 <= i < leaders.len() && leaders[i] == n;
        assert(order[i] == n);
        assert(order.to_set().contains(order[i]));
        assert(le(values(order[count - 1]), values(order[i])));
    }
    members.lemma_len_filter(|n: NodeId| le(x, values(n)));
    lemma_len_subset(leaders.to_set(), holders(members, values, x));
}

/// Among members ranked from the largest value down, fewer than `count + 1`
/// report a value above the one at rank `count`.
proof fn lemma_only_leaders_exceed<T: Ord>(
    members: Set<NodeId>,
    values: spec_fn(NodeId) -> T,
    order: Seq<NodeId>,
    count: int,
    y: T,
)
    requires
        total_order::<T>(),
        ranking(members, values, order),
        0 <= count < order.len(),
        lt(values(order[count]), y),
    ensures
        holders(members, values, y).len() <= count,
{
    let x = values(order[count]);
    let leaders = order.subrange(0, count);
    assert(leaders.no_duplicates());
    leaders.unique_seq_to_set();
    assert forall|n: NodeId| holders(members, values, y).contains(n) implies leaders.to_set().contains(
        n,
    ) by {
        assert(order.to_set().contains(n));
        let i = choose|i: int| 0 <= i < order.len() && order[i] == n;
        if count <= i {
            assert(le(values(order[i]), values(order[count])));
            lemma_order(x, y, values(n));
            lemma_order(y, values(n), x);
        }
        assert(leaders[i] == n);
    }
    lemma_len_subset(holders(members, values, y), leaders.to_set());
}

/// The majority value of `N >= 1` members is the value at rank `N / 2`,
/// counted from zero, when the members are ranked from the largest value
/// down: `N / 2 + 1` members report that value or more, and fewer report
/// anything above it.
pub proof fn lemma_majority_value_is_middle_rank<T: Ord>(
    members: Set<NodeId>,
    values: spec_fn(NodeId) -> T,
    order: Seq<NodeId>,
)
    requires
        total_order::<T>(),
        ranking(members, values, order),
        order.len() >= 1,
    ensures
        members.len() == order.len(),
        holders(members, values, values(order[middle_rank(order.len())])).len() >= majority(members.len()),
        is_majority_value(members, values, values(order[middle_rank(order.len())])),
        majority_value(members, values) == values(order[middle_rank(order.len())]),
{
    let middle = middle_rank(order.len());
    let x = values(order[middle]);
    lemma_leaders_hold(members, values, order, middle + 1);
    assert forall|y: T| #[trigger] guaranteed(members, values, y) implies le(y, x) by {
        lemma_order(x, y, x);
        if lt(x, y) {
            lemma_only_leaders_exceed(members, values, order, middle, y);
        }
    }
    lemma_majority_value_unique(members, values, x);
}

/// Where no two members report the same value, exactly `N / 2 + 1` of `N`
/// members report the value at rank `N / 2` or more.
pub proof fn lemma_distinct_values_majority_holders<T: Ord>(
    members: Set<NodeId>,
    values: spec_fn(NodeId) -> T,
    order: Seq<NodeId>,
)
    requires
        total_order::<T>(),
        ranking(members, values, order),
        order.len() >= 1,
        forall|n: NodeId, m: NodeId|
            members.contains(n) && members.contains(m) && values(n) == values(m) ==> n == m,
    ensures
        holders(members, values, values(order[middle_rank(order.len())])).len() == majority(
            members.len(),
        ),
{
    let middle = middle_rank(order.len());
    let x = values(order[middle]);
    let leaders = order.subrange(0, middle + 1);
    lemma_leaders_hold(members, values, order, middle + 1);
    assert(leaders.no_duplicates());
    leaders.unique_seq_to_set();
    assert forall|n: NodeId| holders(members, values, x).contains(n) implies leaders.to_set().contains(
        n,
    ) by {
        assert(order.to_set().contains(n));
        let i = choose|i: int| 0 <= i < order.len() && order[i] == n;
        assert(order.to_set().contains(order[middle]));
        if middle < i {
            assert(le(values(order[i]), values(order[middle])));
            lemma_order(x, values(n), x);
        }
        assert(leaders[i] == n);
    }
    lemma_len_subset(holders(members, values, x), leaders.to_set());
}

/// Values at or below a guaranteed value are guaranteed.
pub proof fn lemma_guaranteed_downward<T: Ord>(
    members: Set<NodeId>,
    values: spec_fn(NodeId) -> T,
    x: T,
    y: T,
)
    requires
        total_order::<T>(),
        members.finite(),
        le(x, y),
        guaranteed(members, values, y),
    ensures
        guaranteed(members, values, x),
{
    assert forall|n: NodeId| holders(members, values, y).contains(n) implies holders(
        members,
        values,
        x,
    ).contains(n) by {
        lemma_order(x, y, values(n));
    }
    members.lemma_len_filter(|n: NodeId| le(x, values(n)));
    lemma_len_subset(holders(members, values, y), holders(members, values, x));
}

/// The majority value depends on the values of the members alone.
pub proof fn lemma_majority_value_of_members<T: Ord>(
    members: Set<NodeId>,
    values: spec_fn(NodeId) -> T,
    others: spec_fn(NodeId) -> T,
    x: T,
)
    requires
        forall|n: NodeId| members.contains(n) ==> values(n) == others(n),
        is_majority_value(members, values, x),
    ensures
        is_majority_value(members, others, x),
{
    assert forall|y: T| holders(members, values, y) == holders(members, others, y) by {
        assert(holders(members, values, y) =~= holders(members, others, y));
    }
    assert forall|y: T| #[trigger] guaranteed(members, others, y) implies le(y, x) by {
        assert(guaranteed(members, values, y));
    }
}

/// Where a value stands among values ranked from the largest down.
proof fn lemma_rank_of<T: Ord>(values: spec_fn(NodeId) -> T, order: Seq<NodeId>, x: T) -> (at: int)
    requires
        total_order::<T>(),
        forall|i: int, j: int|
            #![trigger order[i], order[j]]
            0 <= i <= j < order.len() ==> le(values(order[j]), values(order[i])),
    ensures
        0 <= at <= order.len(),
        forall|i: int| 0 <= i < at ==> le(x, values(#[trigger] order[i])),
        forall|i: int| at <= i < order.len() ==> le(values(#[trigger] order[i]), x),
    decreases order.len(),
{
    if order.len() == 0 {
        0
    } else if le(x, values(order.last())) {
        assert forall|i: int| 0 <= i < order.len() implies le(x, values(#[trigger] order[i])) by {
            assert(le(values(order[order.len() - 1]), values(order[i])));
            lemma_order(x, values(order.last()), values(order[i]));
        }
        order.len() as int
    } else {
        let front = order.drop_last();
        assert forall|i: int, j: int|
            #![trigger front[i], front[j]]
            0 <= i <= j < front.len() implies le(values(front[j]), values(front[i])) by {
            assert(le(values(order[j]), values(order[i])));
        }
        let at = lemma_rank_of(values, front, x);
        assert forall|i: int| at <= i < order.len() implies le(values(#[trigger] order[i]), x) by {
            if i < front.len() {
                assert(le(values(front[i]), x));
            } else {
                lemma_order(x, values(order.last()), x);
            }
        }
        assert forall|i: int| 0 <= i < at implies le(x, values(#[trigger] order[i])) by {
            assert(le(x, values(front[i])));
        }
        at
    }
}

/// The members of a finite set can be ranked from the largest value down.
pub proof fn lemma_ranking_exists<T: Ord>(members: Set<NodeId>, values: spec_fn(NodeId) -> T) -> (order:
    Seq<NodeId>)
    requires
        total_order::<T>(),
        members.finite(),
    ensures
        ranking(members, values, order),
        order.len() == members.len(),
    decreases members.len(),
{
    if members.len() == 0 {
        let order = Seq::<NodeId>::empty();
        assert(order.to_set() =~= members);
        order
    } else {
        let n = members.choose();
        let rest = members.remove(n);
        let ranked = lemma_ranking_exists(rest, values);
        let at = lemma_rank_of(values, ranked, values(n));
        let order = Seq::new(
            ranked.len() + 1,
            |i: int|
                if i < at {
                    ranked[i]
                } else if i == at {
                    n
                } else {
                    ranked[i - 1]
                },
        );
        assert forall|i: int| 0 <= i < ranked.len() implies rest.contains(#[trigger] ranked[i]) by {
            assert(ranked.to_set().contains(ranked[i]));
        }
        assert(order.no_duplicates()) by {
            assert forall|i: int, j: int| 0 <= i < order.len() && 0 <= j < order.len() && i != j implies order[i]
                != order[j] by {
                let a = if i < at { i } else { i - 1 };
                let b = if j < at { j } else { j - 1 };
                if i != at && j != at {
                    assert(ranked[a] != ranked[b]);
                } else if i != at {
                    assert(rest.contains(ranked[a]));
                } else {
                    assert(rest.contains(ranked[b]));
                }
            }
        }
        assert(order.to_set() =~= members) by {
            assert forall|m: NodeId| members.contains(m) implies order.to_set().contains(m) by {
                if m == n {
                    assert(order[at] == m);
                } else {
                    assert(ranked.to_set().contains(m));
                    let i = choose|i: int| 0 <= i < ranked.len() && ranked[i] == m;
                    if i < at {
                        assert(order[i] == m);
                    } else {
                        assert(order[i + 1] == m);
                    }
                }
            }
            assert forall|m: NodeId| order.to_set().contains(m) implies members.contains(m) by {
                let i = choose|i: int| 0 <= i < order.len() && order[i] == m;
                if i < at {
                    assert(rest.contains(ranked[i]));
                } else if i > at {
                    assert(rest.contains(ranked[i - 1]));
                }
            }
        }
        assert forall|i: int, j: int|
            #![trigger order[i], order[j]]
            0 <= i <= j < order.len() implies le(values(order[j]), values(order[i])) by {
            let a = if i < at { i } else { i - 1 };
            let b = if j < at { j } else { j - 1 };
            if i == at && j == at {
                lemma_order(values(n), values(n), values(n));
            } else if i == at {
                assert(le(values(ranked[b]), values(n)));
            } else if j == at {
                assert(le(values(n), values(ranked[a])));
            } else {
                assert(le(values(ranked[b]), values(ranked[a])));
            }
        }
        order
    }
}

/// Every finite member set that is not empty has a majority value.
pub proof fn lemma_majority_value_exists<T: Ord>(
    members: Set<NodeId>,
    values: spec_fn(NodeId) -> T,
)
    requires
        total_order::<T>(),
        members.finite(),
        members.len() > 0,
    ensures
        is_majority_value(members, values, majority_value(members, values)),
{
    let order = lemma_ranking_exists(members, values);
    lemma_majority_value_is_middle_rank(members, values, order);
}

/// `f` may be asked for the value of every member.
pub open spec fn answers_all<F: Fn(&NodeId) -> T, T>(f: F, members: Set<NodeId>) -> bool {
    forall|n: NodeId| members.contains(n) ==> #[trigger] f.requires((&n,))
}

/// `values` gives, for every member, a value that `f` can answer for it.
pub open spec fn reported<F: Fn(&NodeId) -> T, T>(
    f: F,
    members: Set<NodeId>,
    values: spec_fn(NodeId) -> T,
) -> bool {
    forall|n: NodeId| members.contains(n) ==> #[trigger] f.ensures((&n,), values(n))
}

/// `x` is the majority value of `members` under values that `f` answered.
pub open spec fn majority_answer<F: Fn(&NodeId) -> T, T: Ord>(
    f: F,
    members: Set<NodeId>,
    x: T,
) -> bool {
    exists|values: spec_fn(NodeId) -> T|
        #[trigger] reported(f, members, values) && is_majority_value(members, values, x)
}

/// What a borrowed `f` answers, `f` answers.
pub proof fn lemma_answer_by_reference<F: Fn(&NodeId) -> T, T: Ord>(
    f: &F,
    members: Set<NodeId>,
    x: T,
)
    requires
        majority_answer(f, members, x),
    ensures
        majority_answer(*f, members, x),
{
    let values = choose|values: spec_fn(NodeId) -> T|
        #[trigger] reported(f, members, values) && is_majority_value(members, values, x);
    assert forall|n: NodeId| members.contains(n) implies #[trigger] (*f).ensures(
        (&n,),
        values(n),
    ) by {
        assert(f.ensures((&n,), values(n)));
    }
    assert(reported(*f, members, values));
}

/// `f` answers nothing for a member but what `values` gives for it.
pub open spec fn answers_only<F: Fn(&NodeId) -> T, T>(
    f: F,
    members: Set<NodeId>,
    values: spec_fn(NodeId) -> T,
) -> bool {
    forall|n: NodeId, v: T| members.contains(n) && #[trigger] f.ensures((&n,), v) ==> v == values(n)
}

/// Where `f` answers as the function `values` of the member, the majority
/// value under its answers is the majority value under `values`.
pub proof fn lemma_answer_of_function<F: Fn(&NodeId) -> T, T: Ord>(
    f: F,
    members: Set<NodeId>,
    values: spec_fn(NodeId) -> T,
    x: T,
)
    requires
        total_order::<T>(),
        answers_only(f, members, values),
        majority_answer(f, members, x),
    ensures
        is_majority_value(members, values, x),
        x == majority_value(members, values),
{
    let answered = choose|answered: spec_fn(NodeId) -> T|
        #[trigger] reported(f, members, answered) && is_majority_value(members, answered, x);
    assert forall|n: NodeId| members.contains(n) implies answered(n) == values(n) by {
        assert(f.ensures((&n,), answered(n)));
    }
    lemma_majority_value_of_members(members, answered, values, x);
    lemma_majority_value_unique(members, values, x);
}

/// Asks `f` for the value of every member, once each, and returns the
/// largest value that a strict majority of the members is guaranteed to
/// hold.
///
/// The member set must not be empty: no value is guaranteed by a majority
/// of nobody.
pub fn median<F, T>(members: &ClusterMembers, f: F) -> (r: T) where
    F: Fn(&NodeId) -> T,
    T: Ord + Copy + Default,

    requires
        total_order::<T>(),
        members@.len() > 0,
        answers_all(f, members@),
    ensures
        majority_answer(f, members@, r),
{
    broadcast use vstd::laws_cmp::group_laws_cmp;

    let ghost listed = spec_btree_keys_iter(members).remaining();
    let mut values: Vec<T> = Vec::new();
    for n in it: members.iter()
        invariant
            it.seq() == listed,
            listed.unref().to_set() == members@,
            answers_all(f, members@),
            values@.len() == it.index(),
            forall|i: int| 0 <= i < values@.len() ==> f.ensures((listed[i],), #[trigger] values@[i]),
    {
        assert(listed.unref().to_set().contains(listed.unref()[it.index()]));
        values.push(f(n));
    }
    let ghost ids = listed.unref();
    let ghost answered = values@;
    let ghost given = |n: NodeId| answered[ids.index_of(n)];
    sort_descending(&mut values);
    proof {
        let source = choose|source: Seq<int>| rearranged(answered, values@, source);
        let order = Seq::new(ids.len(), |i: int| ids[source[i]]);
        assert forall|n: NodeId| members@.contains(n) implies #[trigger] f.ensures(
            (&n,),
            given(n),
        ) by {
            assert(ids.contains(n));
            assert(ids[ids.index_of(n)] == n);
        }
        assert forall|i: int| 0 <= i < order.len() implies values@[i] == given(
            #[trigger] order[i],
        ) by {
            assert(ids.contains(ids[source[i]]));
        }
        assert(order.no_duplicates());
        order.unique_seq_to_set();
        ids.unique_seq_to_set();
        assert(order.to_set().subset_of(members@)) by {
            assert forall|n: NodeId| order.to_set().contains(n) implies members@.contains(n) by {
                let i = choose|i: int| 0 <= i < order.len() && order[i] == n;
                assert(ids.contains(ids[source[i]]));
            }
        }
        lemma_subset_equality(order.to_set(), members@);
        assert(ranking(members@, given, order));
        lemma_majority_value_is_middle_rank(members@, given, order);
        assert(reported(f, members@, given));
    }
    values[values.len() / 2]
}

} // verus!

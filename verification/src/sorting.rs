//! A stable sort of a vector, by a comparator.

use std::cmp::Ordering;
use vstd::prelude::*;

verus! {

/// Whether `order` lists each position below its length once.
pub open spec fn is_permutation(order: Seq<int>) -> bool {
    &&& forall|k: int| 0 <= k < order.len() ==> 0 <= #[trigger] order[k] < order.len()
    &&& forall|k: int, l: int|
        0 <= k < l < order.len() ==> #[trigger] order[k] != #[trigger] order[l]
}

/// Whether `after` is `before` with its items in the given order.
pub open spec fn reordered(before: Seq<u32>, after: Seq<u32>, order: Seq<int>) -> bool {
    &&& is_permutation(order)
    &&& order.len() == before.len()
    &&& after.len() == before.len()
    &&& forall|k: int| 0 <= k < after.len() ==> #[trigger] after[k] == before[order[k]]
}

/// Whether `le` is total and transitive.
pub open spec fn is_preorder(le: spec_fn(u32, u32) -> bool) -> bool {
    &&& forall|a: u32, b: u32| #[trigger] le(a, b) || le(b, a)
    &&& forall|a: u32, b: u32, c: u32| #[trigger] le(a, b) && #[trigger] le(b, c) ==> le(a, c)
}

/// Whether the comparator finds the first argument greater exactly where `le` does
/// not hold.
pub open spec fn compares_by<F: FnMut(&u32, &u32) -> Ordering>(
    comparator: F,
    le: spec_fn(u32, u32) -> bool,
) -> bool {
    forall|a: u32, b: u32, o: Ordering|
        #[trigger] call_ensures(comparator, (&a, &b), o) ==> (o == Ordering::Greater <==> !le(a, b))
}

/// Whether the first `m` items are in ascending order, and equal ones in the order
/// of their former positions.
pub open spec fn stably_sorted(
    items: Seq<u32>,
    order: Seq<int>,
    le: spec_fn(u32, u32) -> bool,
    m: int,
) -> bool {
    forall|k: int, l: int|
        0 <= k < l < m ==> le(#[trigger] items[k], #[trigger] items[l]) && (le(items[l], items[k])
            ==> order[k] < order[l])
}

/// Whether `after` is a reordering of `before`, and the stable ascending one
/// wherever the comparator goes by a total preorder.
pub open spec fn sorted_by<F: FnMut(&u32, &u32) -> Ordering>(
    before: Seq<u32>,
    after: Seq<u32>,
    comparator: F,
) -> bool {
    exists|order: Seq<int>|
        {
            &&& #[trigger] reordered(before, after, order)
            &&& forall|le: spec_fn(u32, u32) -> bool|
                is_preorder(le) && #[trigger] compares_by(comparator, le) ==> stably_sorted(
                    after,
                    order,
                    le,
                    after.len() - 0,
                )
        }
}

/// Sorts `items` by insertion: equal items keep their order.
pub fn insertion_sort<F: FnMut(&u32, &u32) -> Ordering>(items: &mut Vec<u32>, comparator: F)
    requires
        forall|a: u32, b: u32| #[trigger] call_requires(comparator, (&a, &b)),
    ensures
        sorted_by(old(items)@, final(items)@, comparator),
{
    let ghost given = comparator;
    let mut comparator = comparator;
    let ghost before = items@;
    let ghost mut order: Seq<int> = Seq::new(items@.len(), |k: int| k);
    let len = items.len();
    for i in 0..len
        invariant
            len == items@.len(),
            comparator == given,
            forall|a: u32, b: u32| #[trigger] call_requires(comparator, (&a, &b)),
            reordered(before, items@, order),
            forall|k: int| i <= k < len ==> #[trigger] order[k] == k,
            forall|k: int| 0 <= k < i ==> #[trigger] order[k] < i,
            forall|le: spec_fn(u32, u32) -> bool|
                is_preorder(le) && #[trigger] compares_by(comparator, le) ==> stably_sorted(
                    items@,
                    order,
                    le,
                    i + 0,
                ),
    {
        let mut j = i;
        let mut greater = true;
        while j > 0 && greater
            invariant
                j <= i < len,
                len == items@.len(),
                comparator == given,
                forall|a: u32, b: u32| #[trigger] call_requires(comparator, (&a, &b)),
                reordered(before, items@, order),
                forall|k: int| i < k < len ==> #[trigger] order[k] == k,
                forall|k: int| 0 <= k <= i && k != j ==> #[trigger] order[k] < i,
                order[j + 0] == i,
                forall|le: spec_fn(u32, u32) -> bool|
                    is_preorder(le) && #[trigger] compares_by(comparator, le)
                        ==> almost_sorted(items@, order, le, j + 0, i + 1) && (!greater && j > 0
                        ==> le(items@[j - 1], items@[j + 0])),
            decreases j + (if greater { 1int } else { 0 }),
        {
            match comparator(&items[j - 1], &items[j]) {
                Ordering::Greater => {
                    let ghost was = items@;
                    let ghost was_order = order;
                    let upper = items[j];
                    let lower = items[j - 1];
                    items[j] = lower;
                    items[j - 1] = upper;
                    proof {
                        order = order.update(j + 0, was_order[j - 1]).update(j - 1, was_order[j + 0]);
                    }
                    j = j - 1;
                },
                _ => {
                    greater = false;
                },
            }
        }
    }
    proof {
        assert forall|le: spec_fn(u32, u32) -> bool|
            is_preorder(le) && #[trigger] compares_by(comparator, le) implies stably_sorted(
            items@,
            order,
            le,
            items@.len() - 0,
        ) by {}
        assert(reordered(before, items@, order));
    }
}

/// Whether the first `m` items are stably sorted but for item `j`, which comes from
/// the last position and does not belong behind any item after it.
spec fn almost_sorted(
    items: Seq<u32>,
    order: Seq<int>,
    le: spec_fn(u32, u32) -> bool,
    j: int,
    m: int,
) -> bool {
    forall|k: int, l: int|
        0 <= k < l < m && l != j ==> le(#[trigger] items[k], #[trigger] items[l]) && (le(
            items[l],
            items[k],
        ) ==> order[k] < order[l])
}

/// What sorting does: the items after are the items before in another order, `order`
/// saying where each came from, with none lost and none twice. By every total preorder
/// that the comparator goes by they are ascending, and equal ones stand in the order in
/// which they stood before.
pub proof fn law_sorted_is_ascending_and_stable<F: FnMut(&u32, &u32) -> Ordering>(
    before: Seq<u32>,
    after: Seq<u32>,
    comparator: F,
    le: spec_fn(u32, u32) -> bool,
) -> (order: Seq<int>)
    requires
        sorted_by(before, after, comparator),
        forall|a: u32, b: u32| #[trigger] le(a, b) || le(b, a),
        forall|a: u32, b: u32, c: u32| #[trigger] le(a, b) && #[trigger] le(b, c) ==> le(a, c),
        forall|a: u32, b: u32, o: Ordering| #[trigger]
            call_ensures(comparator, (&a, &b), o) ==> (o == Ordering::Greater <==> !le(a, b)),
    ensures
        after.len() == before.len(),
        order.len() == before.len(),
        forall|k: int|
            0 <= k < order.len() ==> 0 <= #[trigger] order[k] < before.len() && after[k]
                == before[order[k]],
        order.no_duplicates(),
        forall|k: int, l: int|
            0 <= k < l < after.len() ==> {
                &&& le(#[trigger] after[k], #[trigger] after[l])
                &&& le(after[l], after[k]) ==> order[k] < order[l]
            },
{
    let order = choose|order: Seq<int>|
        {
            &&& #[trigger] reordered(before, after, order)
            &&& forall|by: spec_fn(u32, u32) -> bool|
                is_preorder(by) && #[trigger] compares_by(comparator, by) ==> stably_sorted(
                    after,
                    order,
                    by,
                    after.len() - 0,
                )
        };
    assert(is_preorder(le));
    assert(compares_by(comparator, le));
    assert(stably_sorted(after, order, le, after.len() - 0));
    assert forall|i: int, j: int|
        0 <= i < order.len() && 0 <= j < order.len() && i != j implies order[i] != order[j] by {
        if i < j {
            assert(order[i] != order[j]);
        } else {
            assert(order[j] != order[i]);
        }
    }
    order
}

} // verus!

//! Lists that are gone through one by one.

use vstd::prelude::*;

use crate::flow::ascending;

verus! {

/// One more of a list is just that one more.
pub proof fn lemma_take_one<A>(list: Seq<A>, i: int)
    requires
        0 <= i < list.len(),
    ensures
        list.take(i + 1) == list.take(i).push(list[i]),
        list.take(i + 1).drop_last() == list.take(i),
        forall|x: A| #[trigger]
            list.take(i + 1).contains(x) <==> list.take(i).contains(x) || x == list[i],
        list.take(i + 1).to_set() == list.take(i).to_set().insert(list[i]),
        list.no_duplicates() ==> !list.take(i).contains(list[i]),
{
    let short = list.take(i);
    let long = list.take(i + 1);
    assert(long =~= short.push(list[i]));
    assert(long.drop_last() =~= short);
    lemma_push_one(short, list[i]);
    assert(long.to_set() =~= short.to_set().insert(list[i]));
    if list.no_duplicates() && short.contains(list[i]) {
        let k = choose|k: int| 0 <= k < short.len() && short[k] == list[i];
        assert(list[k] == list[i]);
    }
}

/// What a list holds to which one has been put.
pub proof fn lemma_push_one<A>(list: Seq<A>, last: A)
    ensures
        forall|x: A| #[trigger] list.push(last).contains(x) <==> list.contains(x) || x == last,
{
    let long = list.push(last);
    assert forall|x: A| #[trigger] long.contains(x) <==> list.contains(x) || x == last by {
        if list.contains(x) {
            let k = choose|k: int| 0 <= k < list.len() && list[k] == x;
            assert(long[k] == x);
        }
        if x == last {
            assert(long[list.len() as int] == x);
        }
        if long.contains(x) {
            let k = choose|k: int| 0 <= k < long.len() && long[k] == x;
            if k < list.len() {
                assert(list[k] == x);
            }
        }
    }
}

/// What one list behind another holds.
pub proof fn lemma_appended<A>(a: Seq<A>, b: Seq<A>)
    ensures
        forall|x: A| #[trigger] (a + b).contains(x) <==> a.contains(x) || b.contains(x),
        a.no_duplicates() && b.no_duplicates() && (forall|x: A| #[trigger]
            a.contains(x) ==> !b.contains(x)) ==> (a + b).no_duplicates(),
{
    if a.no_duplicates() && b.no_duplicates() && (forall|x: A| #[trigger]
        a.contains(x) ==> !b.contains(x)) {
        assert forall|i: int, j: int|
            0 <= i < (a + b).len() && 0 <= j < (a + b).len() && i != j implies (a + b)[i] != (a
            + b)[j] by {
            if i < a.len() {
                assert(a.contains(a[i]));
            } else {
                assert(b.contains(b[i - a.len()]));
            }
            if j < a.len() {
                assert(a.contains(a[j]));
            } else {
                assert(b.contains(b[j - a.len()]));
            }
        }
    }
    assert forall|x: A| #[trigger] (a + b).contains(x) <==> a.contains(x) || b.contains(x) by {
        if a.contains(x) {
            let k = choose|k: int| 0 <= k < a.len() && a[k] == x;
            assert((a + b)[k] == x);
        }
        if b.contains(x) {
            let k = choose|k: int| 0 <= k < b.len() && b[k] == x;
            assert((a + b)[a.len() + k] == x);
        }
        if (a + b).contains(x) {
            let k = choose|k: int| 0 <= k < (a + b).len() && (a + b)[k] == x;
            if k < a.len() {
                assert(a[k] == x);
            } else {
                assert(b[k - a.len()] == x);
            }
        }
    }
}

/// Filtering a list keeps its members that pass, without duplicates where it
/// had none.
pub proof fn lemma_filter<A>(list: Seq<A>, keep: spec_fn(A) -> bool)
    ensures
        forall|x: A| #[trigger] list.filter(keep).contains(x) <==> list.contains(x) && keep(x),
        list.no_duplicates() ==> list.filter(keep).no_duplicates(),
        (forall|x: A| #[trigger] list.contains(x) ==> keep(x)) ==> list.filter(keep) == list,
    decreases list.len(),
{
    reveal(Seq::filter);
    if list.len() > 0 {
        let front = list.drop_last();
        lemma_filter(front, keep);
        assert(list =~= front.push(list.last()));
        lemma_push_one(front, list.last());
        lemma_push_one(front.filter(keep), list.last());
        assert(list.contains(list.last()));
        if list.no_duplicates() {
            assert(front.no_duplicates());
            if front.contains(list.last()) {
                let i = choose|i: int| 0 <= i < front.len() && front[i] == list.last();
                assert(list[i] == list[list.len() - 1]);
            }
            assert(!front.filter(keep).contains(list.last()));
        }
        if forall|x: A| #[trigger] list.contains(x) ==> keep(x) {
            assert(forall|x: A| #[trigger] front.contains(x) ==> list.contains(x));
        }
    } else {
        assert(list.filter(keep) =~= list);
    }
}

/// Filters that agree on a list give the same.
pub proof fn lemma_same_filter<A>(list: Seq<A>, a: spec_fn(A) -> bool, b: spec_fn(A) -> bool)
    requires
        forall|i: int| 0 <= i < list.len() ==> #[trigger] a(list[i]) == b(list[i]),
    ensures
        list.filter(a) == list.filter(b),
    decreases list.len(),
{
    reveal(Seq::filter);
    if list.len() > 0 {
        let front = list.drop_last();
        assert forall|i: int| 0 <= i < front.len() implies #[trigger] a(front[i]) == b(
            front[i],
        ) by {
            assert(front[i] == list[i]);
            assert(a(list[i]) == b(list[i]));
        }
        lemma_same_filter(front, a, b);
        assert(a(list[list.len() - 1]) == b(list[list.len() - 1]));
    }
}

/// Filtering twice is filtering once by both.
pub proof fn lemma_filter_twice<A>(
    list: Seq<A>,
    a: spec_fn(A) -> bool,
    b: spec_fn(A) -> bool,
    both: spec_fn(A) -> bool,
)
    requires
        forall|i: int|
            0 <= i < list.len() ==> #[trigger] both(list[i]) == (a(list[i]) && b(list[i])),
    ensures
        list.filter(a).filter(b) == list.filter(both),
    decreases list.len(),
{
    reveal(Seq::filter);
    if list.len() > 0 {
        let front = list.drop_last();
        assert forall|i: int| 0 <= i < front.len() implies #[trigger] both(front[i]) == (a(
            front[i],
        ) && b(front[i])) by {
            assert(front[i] == list[i]);
            assert(both(list[i]) == (a(list[i]) && b(list[i])));
        }
        lemma_filter_twice(front, a, b, both);
        assert(both(list[list.len() - 1]) == (a(list[list.len() - 1]) && b(
            list[list.len() - 1],
        )));
        if a(list.last()) {
            let kept = front.filter(a).push(list.last());
            assert(list.filter(a) == kept);
            assert(kept.drop_last() =~= front.filter(a));
        }
    } else {
        assert(list.filter(a) =~= list);
        assert(list.filter(both) =~= list);
        assert(list.filter(a).filter(b) =~= list);
    }
}

/// The last of an ascending list is the largest, and the others are the rest.
proof fn lemma_ascending_last(list: Seq<u32>, holds: Set<u32>)
    requires
        ascending(list, holds),
        list.len() > 0,
    ensures
        holds.contains(list.last()),
        forall|x: u32| #[trigger] holds.contains(x) ==> x <= list.last(),
        ascending(list.drop_last(), holds.remove(list.last())),
{
    let front = list.drop_last();
    assert(list.contains(list[list.len() - 1]));
    assert forall|x: u32| #[trigger] holds.contains(x) implies x <= list.last() by {
        assert(list.contains(x));
        let k = choose|k: int| 0 <= k < list.len() && list[k] == x;
        if k < list.len() - 1 {
            assert(list[k] < list[list.len() - 1]);
        }
    }
    assert forall|x: u32| #[trigger] front.contains(x) <==> holds.remove(list.last()).contains(
        x,
    ) by {
        if front.contains(x) {
            let k = choose|k: int| 0 <= k < front.len() && front[k] == x;
            assert(list[k] == x);
            assert(list.contains(x));
            assert(list[k] < list[list.len() - 1]);
        }
        if holds.remove(list.last()).contains(x) {
            assert(list.contains(x));
            let k = choose|k: int| 0 <= k < list.len() && list[k] == x;
            assert(front[k] == x);
        }
    }
}

/// There is only one way to list numbers in ascending order.
pub proof fn lemma_ascending_unique(a: Seq<u32>, b: Seq<u32>, holds: Set<u32>)
    requires
        ascending(a, holds),
        ascending(b, holds),
    ensures
        a == b,
    decreases a.len(),
{
    if a.len() == 0 {
        if b.len() > 0 {
            assert(b.contains(b[0]));
            assert(a.contains(b[0]));
        }
        assert(a =~= b);
    } else {
        assert(a.contains(a[0]));
        assert(b.contains(a[0]));
        lemma_ascending_last(a, holds);
        lemma_ascending_last(b, holds);
        assert(a.last() == b.last());
        lemma_ascending_unique(a.drop_last(), b.drop_last(), holds.remove(a.last()));
        assert(a =~= a.drop_last().push(a.last()));
        assert(b =~= b.drop_last().push(b.last()));
    }
}

/// An ascending list holds each number once, the lower ones first, and no others.
pub proof fn ascending_lists_go_up(list: Seq<u32>, holds: Set<u32>)
    requires
        ascending(list, holds),
    ensures
        forall|i: int, j: int| 0 <= i < j < list.len() ==> list[i] < list[j],
        list.to_set() == holds,
        list.no_duplicates(),
{
    assert(list.to_set() =~= holds) by {
        assert forall|x: u32| list.to_set().contains(x) <==> holds.contains(x) by {
            assert(list.contains(x) <==> holds.contains(x));
        }
    }
}

} // verus!

//! Sorting: the one order of a list that its ranking and its own sequence
//! leave possible.

use vstd::prelude::*;

verus! {

/// Values that are ranked. Two of them may rank the same.
pub trait Rank: Sized {
    /// Whether `self` ranks strictly before `other`.
    spec fn precedes(self, other: Self) -> bool;

    /// No value ranks before itself.
    proof fn irreflexive(a: Self)
        ensures
            !a.precedes(a),
    ;

    /// Ranking before is transitive.
    proof fn transitive(a: Self, b: Self, c: Self)
        requires
            a.precedes(b),
            b.precedes(c),
        ensures
            a.precedes(c),
    ;

    /// Where one value ranks before another, every third value ranks after the
    /// one or before the other.
    proof fn connected(a: Self, b: Self, c: Self)
        requires
            a.precedes(c),
        ensures
            a.precedes(b) || b.precedes(c),
    ;
}

/// A type whose values are ranked by their views.
pub trait Ranked<R: Rank>: View<V = R> + Sized {
    /// Whether `self` ranks strictly before `other`.
    fn ranks_before(&self, other: &Self) -> (r: bool)
        ensures
            r == self@.precedes(other@),
    ;
}

/// Whether the item at `i` belongs before the item at `j`: it ranks before it,
/// or ranks the same and comes first in the list.
pub open spec fn earlier<R: Rank>(items: Seq<R>, i: int, j: int) -> bool {
    items[i].precedes(items[j]) || (!items[j].precedes(items[i]) && i < j)
}

/// Whether `order` names every position of the list exactly once, each before
/// the positions that belong after it.
pub open spec fn in_order<R: Rank>(items: Seq<R>, order: Seq<int>) -> bool {
    &&& order.len() == items.len()
    &&& forall|i: int| 0 <= i < order.len() ==> 0 <= #[trigger] order[i] < items.len()
    &&& forall|p: int| 0 <= p < items.len() ==> #[trigger] order.contains(p)
    &&& forall|i: int, j: int|
        0 <= i < j < order.len() ==> earlier(items, #[trigger] order[i], #[trigger] order[j])
}

/// The position `p` put in its place among positions that are in order.
pub open spec fn placed<R: Rank>(items: Seq<R>, order: Seq<int>, p: int) -> Seq<int>
    decreases order.len(),
{
    if order.len() > 0 && earlier(items, p, order.last()) {
        placed(items, order.drop_last(), p).push(order.last())
    } else {
        order.push(p)
    }
}

/// The first `n` positions of the list in the order in which its items belong.
pub open spec fn first_in_order<R: Rank>(items: Seq<R>, n: nat) -> Seq<int>
    decreases n,
{
    if n == 0 {
        Seq::empty()
    } else {
        placed(items, first_in_order(items, (n - 1) as nat), n - 1)
    }
}

/// The positions of the list in the order in which its items belong.
pub open spec fn ordering<R: Rank>(items: Seq<R>) -> Seq<int> {
    first_in_order(items, items.len())
}

/// The items in the order in which they belong: by rank, and in the sequence of
/// the list where the rank is the same.
pub open spec fn sorted<R: Rank>(items: Seq<R>) -> Seq<R> {
    ordering(items).map_values(|p: int| items[p])
}

/// Belonging before is transitive.
proof fn lemma_earlier_transitive<R: Rank>(items: Seq<R>, i: int, j: int, k: int)
    requires
        earlier(items, i, j),
        earlier(items, j, k),
    ensures
        earlier(items, i, k),
{
    let (a, b, c) = (items[i], items[j], items[k]);
    if a.precedes(b) {
        R::connected(a, c, b);
        if c.precedes(b) && b.precedes(c) {
            R::transitive(c, b, c);
            R::irreflexive(c);
        }
    } else if b.precedes(c) {
        R::connected(b, a, c);
    } else if c.precedes(a) {
        R::connected(c, b, a);
    }
}

/// No two positions each belong before the other.
proof fn lemma_earlier_asymmetric<R: Rank>(items: Seq<R>, i: int, j: int)
    requires
        earlier(items, i, j),
    ensures
        !earlier(items, j, i),
{
    if items[i].precedes(items[j]) && items[j].precedes(items[i]) {
        R::transitive(items[i], items[j], items[i]);
        R::irreflexive(items[i]);
    }
}

/// Two orders of one list agree at every position up to `n`.
proof fn lemma_orders_agree<R: Rank>(items: Seq<R>, a: Seq<int>, b: Seq<int>, n: int)
    requires
        in_order(items, a),
        in_order(items, b),
        0 <= n <= items.len(),
    ensures
        forall|i: int| 0 <= i < n ==> a[i] == b[i],
    decreases n,
{
    if n > 0 {
        lemma_orders_agree(items, a, b, n - 1);
        let m = n - 1;
        if a[m] != b[m] {
            assert(b.contains(a[m]));
            let j = choose|j: int| 0 <= j < b.len() && b[j] == a[m];
            assert(a.contains(b[m]));
            let k = choose|k: int| 0 <= k < a.len() && a[k] == b[m];
            if j < m {
                assert(earlier(items, a[j], a[m]));
                R::irreflexive(items[a[m]]);
            } else if k < m {
                assert(earlier(items, b[k], b[m]));
                R::irreflexive(items[b[m]]);
            } else {
                assert(earlier(items, b[m], b[j]));
                assert(earlier(items, a[m], a[k]));
                lemma_earlier_asymmetric(items, a[m], b[m]);
            }
        }
    }
}

/// A list has only one order.
pub proof fn law_order_is_unique<R: Rank>(items: Seq<R>, a: Seq<int>, b: Seq<int>)
    requires
        in_order(items, a),
        in_order(items, b),
    ensures
        a == b,
{
    lemma_orders_agree(items, a, b, items.len() as int);
    assert(a =~= b);
}

/// Whether each position stands before those that belong after it.
spec fn ascends<R: Rank>(items: Seq<R>, order: Seq<int>) -> bool {
    forall|i: int, j: int|
        0 <= i < j < order.len() ==> earlier(items, #[trigger] order[i], #[trigger] order[j])
}

proof fn lemma_placed<R: Rank>(items: Seq<R>, order: Seq<int>, p: int)
    requires
        ascends(items, order),
        !order.contains(p),
    ensures
        ascends(items, placed(items, order, p)),
        placed(items, order, p).len() == order.len() + 1,
        forall|q: int| #[trigger]
            placed(items, order, p).contains(q) <==> order.contains(q) || q == p,
    decreases order.len(),
{
    let all = placed(items, order, p);
    if order.len() > 0 && earlier(items, p, order.last()) {
        let rest = order.drop_last();
        let inner = placed(items, rest, p);
        let last = order.last();
        assert(!rest.contains(p)) by {
            if rest.contains(p) {
                let k = choose|k: int| 0 <= k < rest.len() && rest[k] == p;
                assert(order[k] == p);
            }
        }
        assert forall|i: int, j: int| 0 <= i < j < rest.len() implies earlier(
            items,
            #[trigger] rest[i],
            #[trigger] rest[j],
        ) by {
            assert(earlier(items, order[i], order[j]));
        }
        lemma_placed(items, rest, p);
        assert forall|i: int, j: int| 0 <= i < j < all.len() implies earlier(
            items,
            #[trigger] all[i],
            #[trigger] all[j],
        ) by {
            assert(all[i] == inner[i]);
            if j < inner.len() {
                assert(all[j] == inner[j]);
            } else {
                assert(inner.contains(inner[i]));
                if inner[i] != p {
                    assert(rest.contains(inner[i]));
                    let k = choose|k: int| 0 <= k < rest.len() && rest[k] == inner[i];
                    assert(earlier(items, order[k], order[order.len() - 1]));
                }
            }
        }
        assert forall|q: int| #[trigger] all.contains(q) <==> order.contains(q) || q == p by {
            if all.contains(q) {
                let k = choose|k: int| 0 <= k < all.len() && all[k] == q;
                if k < inner.len() {
                    assert(inner.contains(inner[k]));
                    if q != p {
                        let m = choose|m: int| 0 <= m < rest.len() && rest[m] == q;
                        assert(order[m] == q);
                    }
                } else {
                    assert(order[order.len() - 1] == q);
                }
            }
            if order.contains(q) || q == p {
                if q == last {
                    assert(all[all.len() - 1] == q);
                } else {
                    if q != p {
                        let m = choose|m: int| 0 <= m < order.len() && order[m] == q;
                        assert(rest[m] == q);
                    }
                    assert(inner.contains(q));
                    let k = choose|k: int| 0 <= k < inner.len() && inner[k] == q;
                    assert(all[k] == q);
                }
            }
        }
    } else {
        assert forall|i: int, j: int| 0 <= i < j < all.len() implies earlier(
            items,
            #[trigger] all[i],
            #[trigger] all[j],
        ) by {
            assert(all[i] == order[i]);
            if j < order.len() {
                assert(all[j] == order[j]);
            } else {
                let last = order.last();
                assert(order.contains(last));
                assert(earlier(items, last, p));
                if i < order.len() - 1 {
                    assert(earlier(items, order[i], order[order.len() - 1]));
                    lemma_earlier_transitive(items, order[i], last, p);
                }
            }
        }
        assert forall|q: int| #[trigger] all.contains(q) <==> order.contains(q) || q == p by {
            if order.contains(q) {
                let m = choose|m: int| 0 <= m < order.len() && order[m] == q;
                assert(all[m] == q);
            }
            if q == p {
                assert(all[order.len() as int] == q);
            }
        }
    }
}

proof fn lemma_first_in_order<R: Rank>(items: Seq<R>, n: nat)
    ensures
        ascends(items, first_in_order(items, n)),
        first_in_order(items, n).len() == n,
        forall|q: int| #[trigger] first_in_order(items, n).contains(q) <==> 0 <= q < n,
    decreases n,
{
    if n > 0 {
        let m = (n - 1) as nat;
        lemma_first_in_order(items, m);
        lemma_placed(items, first_in_order(items, m), m as int);
    }
}

/// Every list has an order: each of its items stands in it exactly once.
pub proof fn law_every_list_has_an_order<R: Rank>(items: Seq<R>)
    ensures
        in_order(items, ordering(items)),
{
    lemma_first_in_order(items, items.len());
    let order = ordering(items);
    assert forall|i: int| 0 <= i < order.len() implies 0 <= #[trigger] order[i] < items.len() by {
        assert(order.contains(order[i]));
    }
}

/// Whether of every two different positions one ranks before the other.
pub open spec fn without_ties<R: Rank>(items: Seq<R>) -> bool {
    forall|i: int, j: int|
        0 <= i < items.len() && 0 <= j < items.len() && i != j ==> (
        #[trigger] items[i]).precedes(#[trigger] items[j]) || items[j].precedes(items[i])
}

/// Whether two lists hold the same items.
pub open spec fn same_items<R>(a: Seq<R>, b: Seq<R>) -> bool {
    a.len() == b.len() && forall|item: R| #[trigger] a.contains(item) <==> b.contains(item)
}

proof fn lemma_sorted_strictly<R: Rank>(items: Seq<R>)
    requires
        without_ties(items),
    ensures
        sorted(items).len() == items.len(),
        forall|i: int, j: int|
            0 <= i < j < items.len() ==> (#[trigger] sorted(items)[i]).precedes(
                #[trigger] sorted(items)[j],
            ),
        forall|item: R| #[trigger] sorted(items).contains(item) <==> items.contains(item),
{
    law_every_list_has_an_order(items);
    let order = ordering(items);
    let all = sorted(items);
    assert forall|i: int, j: int| 0 <= i < j < items.len() implies (#[trigger] all[i]).precedes(
        #[trigger] all[j],
    ) by {
        assert(earlier(items, order[i], order[j]));
        if order[i] == order[j] {
            R::irreflexive(items[order[i]]);
        }
        assert(items[order[i]].precedes(items[order[j]]) || items[order[j]].precedes(
            items[order[i]],
        ));
    }
    assert forall|item: R| #[trigger] all.contains(item) <==> items.contains(item) by {
        if all.contains(item) {
            let k = choose|k: int| 0 <= k < all.len() && all[k] == item;
            assert(items[order[k]] == item);
        }
        if items.contains(item) {
            let p = choose|p: int| 0 <= p < items.len() && items[p] == item;
            assert(order.contains(p));
            let k = choose|k: int| 0 <= k < order.len() && order[k] == p;
            assert(all[k] == item);
        }
    }
}

proof fn lemma_strictly_sorted_agree<R: Rank>(a: Seq<R>, b: Seq<R>, n: int)
    requires
        same_items(a, b),
        forall|i: int, j: int|
            0 <= i < j < a.len() ==> (#[trigger] a[i]).precedes(#[trigger] a[j]),
        forall|i: int, j: int|
            0 <= i < j < b.len() ==> (#[trigger] b[i]).precedes(#[trigger] b[j]),
        0 <= n <= a.len(),
    ensures
        forall|i: int| 0 <= i < n ==> a[i] == b[i],
    decreases n,
{
    if n > 0 {
        let m = n - 1;
        lemma_strictly_sorted_agree(a, b, m);
        if a[m] != b[m] {
            assert(a.contains(a[m]));
            let j = choose|j: int| 0 <= j < b.len() && b[j] == a[m];
            assert(b.contains(b[m]));
            assert(a.contains(b[m]));
            let k = choose|k: int| 0 <= k < a.len() && a[k] == b[m];
            if j < m {
                assert(a[j].precedes(a[m]));
                R::irreflexive(a[m]);
            } else if k < m {
                assert(b[k].precedes(b[m]));
                R::irreflexive(b[m]);
            } else {
                assert(b[m].precedes(b[j]));
                assert(a[m].precedes(a[k]));
                R::transitive(a[m], b[m], a[m]);
                R::irreflexive(a[m]);
            }
        }
    }
}

/// Where no two items rank the same, the sequence that the list came in makes
/// no difference.
pub proof fn law_order_does_not_depend_on_the_sequence<R: Rank>(a: Seq<R>, b: Seq<R>)
    requires
        same_items(a, b),
        without_ties(a),
        without_ties(b),
    ensures
        sorted(a) == sorted(b),
{
    lemma_sorted_strictly(a);
    lemma_sorted_strictly(b);
    assert forall|item: R| #[trigger] sorted(a).contains(item) <==> sorted(b).contains(item) by {
        assert(a.contains(item) <==> b.contains(item));
    }
    lemma_strictly_sorted_agree(sorted(a), sorted(b), a.len() as int);
    assert(sorted(a) =~= sorted(b));
}

/// What an order of a list says of `ordering`.
pub proof fn lemma_ordering<R: Rank>(items: Seq<R>, order: Seq<int>)
    requires
        in_order(items, order),
    ensures
        ordering(items) == order,
{
    law_every_list_has_an_order(items);
    law_order_is_unique(items, order, ordering(items));
}

/// The views of the items of a vector.
pub open spec fn ranks<R: Rank, T: Ranked<R>>(items: Seq<T>) -> Seq<R> {
    items.map_values(|item: T| item@)
}

/// The positions held by a vector.
pub open spec fn positions(order: Seq<usize>) -> Seq<int> {
    order.map_values(|p: usize| p as int)
}

/// Whether `order` puts the positions from `low` up to `high` in order.
spec fn arranges<R: Rank>(items: Seq<R>, low: int, high: int, order: Seq<usize>) -> bool {
    &&& order.len() == high - low
    &&& forall|i: int| 0 <= i < order.len() ==> low <= #[trigger] order[i] < high
    &&& forall|p: usize| low <= p < high ==> #[trigger] order.contains(p)
    &&& forall|i: int, j: int|
        0 <= i < j < order.len() ==> earlier(
            items,
            #[trigger] order[i] as int,
            #[trigger] order[j] as int,
        )
}

/// Sorts the positions from `low` up to `high`.
fn sort_range<R: Rank, T: Ranked<R>>(items: &Vec<T>, low: usize, high: usize) -> (out: Vec<usize>)
    requires
        low <= high <= items.len(),
    ensures
        arranges(ranks(items@), low as int, high as int, out@),
    decreases high - low,
{
    if high - low < 2 {
        let mut out: Vec<usize> = Vec::new();
        if low < high {
            out.push(low);
            assert(out@[0] == low);
        }
        return out;
    }
    let middle: usize = low + (high - low) / 2;
    let left = sort_range(items, low, middle);
    let right = sort_range(items, middle, high);
    merge(items, low, middle, high, &left, &right)
}

/// Merges two neighbouring ranges of positions, each in order.
fn merge<R: Rank, T: Ranked<R>>(
    items: &Vec<T>,
    low: usize,
    middle: usize,
    high: usize,
    left: &Vec<usize>,
    right: &Vec<usize>,
) -> (out: Vec<usize>)
    requires
        low <= middle <= high <= items.len(),
        arranges(ranks(items@), low as int, middle as int, left@),
        arranges(ranks(items@), middle as int, high as int, right@),
    ensures
        arranges(ranks(items@), low as int, high as int, out@),
{
    let mut out: Vec<usize> = Vec::new();
    let mut i: usize = 0;
    let mut j: usize = 0;
    while i < left.len() || j < right.len()
        invariant
            low <= middle <= high <= items.len(),
            arranges(ranks(items@), low as int, middle as int, left@),
            arranges(ranks(items@), middle as int, high as int, right@),
            i <= left.len(),
            j <= right.len(),
            out@.len() == i + j,
            forall|k: int| 0 <= k < out@.len() ==> low <= #[trigger] out@[k] < high,
            forall|k: int| 0 <= k < i ==> out@.contains(#[trigger] left@[k]),
            forall|k: int| 0 <= k < j ==> out@.contains(#[trigger] right@[k]),
            forall|k: int, m: int|
                0 <= k < m < out@.len() ==> earlier(
                    ranks(items@),
                    #[trigger] out@[k] as int,
                    #[trigger] out@[m] as int,
                ),
            forall|k: int, m: int|
                0 <= k < out@.len() && i <= m < left@.len() ==> earlier(
                    ranks(items@),
                    #[trigger] out@[k] as int,
                    #[trigger] left@[m] as int,
                ),
            forall|k: int, m: int|
                0 <= k < out@.len() && j <= m < right@.len() ==> earlier(
                    ranks(items@),
                    #[trigger] out@[k] as int,
                    #[trigger] right@[m] as int,
                ),
        decreases left.len() + right.len() - i - j,
    {
        let take_right: bool = if i == left.len() {
            true
        } else if j == right.len() {
            false
        } else {
            items[right[j]].ranks_before(&items[left[i]])
        };
        let ghost before = out@;
        if take_right {
            let next: usize = right[j];
            out.push(next);
            proof {
                assert forall|m: int| i <= m < left@.len() implies earlier(
                    ranks(items@),
                    next as int,
                    #[trigger] left@[m] as int,
                ) by {
                    assert(earlier(ranks(items@), next as int, left@[i as int] as int));
                    if m > i {
                        lemma_earlier_transitive(
                            ranks(items@),
                            next as int,
                            left@[i as int] as int,
                            left@[m] as int,
                        );
                    }
                }
                lemma_pushed(before, next);
            }
            j += 1;
        } else {
            let next: usize = left[i];
            out.push(next);
            proof {
                assert forall|m: int| j <= m < right@.len() implies earlier(
                    ranks(items@),
                    next as int,
                    #[trigger] right@[m] as int,
                ) by {
                    assert(earlier(ranks(items@), next as int, right@[j as int] as int));
                    if m > j {
                        lemma_earlier_transitive(
                            ranks(items@),
                            next as int,
                            right@[j as int] as int,
                            right@[m] as int,
                        );
                    }
                }
                lemma_pushed(before, next);
            }
            i += 1;
        }
    }
    assert forall|p: usize| low <= p < high implies #[trigger] out@.contains(p) by {
        if p < middle {
            assert(left@.contains(p));
            let k = choose|k: int| 0 <= k < left@.len() && left@[k] == p;
            assert(out@.contains(left@[k]));
        } else {
            assert(right@.contains(p));
            let k = choose|k: int| 0 <= k < right@.len() && right@[k] == p;
            assert(out@.contains(right@[k]));
        }
    }
    out
}

/// What a pushed element leaves in the sequence.
proof fn lemma_pushed(before: Seq<usize>, next: usize)
    ensures
        before.push(next).contains(next),
        forall|p: usize| before.contains(p) ==> before.push(next).contains(p),
{
    assert(before.push(next)[before.len() as int] == next);
    assert forall|p: usize| before.contains(p) implies before.push(next).contains(p) by {
        let k = choose|k: int| 0 <= k < before.len() && before[k] == p;
        assert(before.push(next)[k] == p);
    }
}

/// The positions of the items in the order in which they belong.
pub fn sort<R: Rank, T: Ranked<R>>(items: &Vec<T>) -> (out: Vec<usize>)
    ensures
        in_order(ranks(items@), positions(out@)),
        positions(out@) == ordering(ranks(items@)),
{
    let out = sort_range(items, 0, items.len());
    proof {
        let order = positions(out@);
        assert forall|p: int| 0 <= p < items@.len() implies #[trigger] order.contains(p) by {
            assert(out@.contains(p as usize));
            let k = choose|k: int| 0 <= k < out@.len() && out@[k] == p as usize;
            assert(order[k] == p);
        }
        lemma_ordering(ranks(items@), order);
    }
    out
}

proof fn lemma_placed_keeps<R: Rank, T>(items: Seq<R>, order: Seq<int>, p: int, values: Seq<T>)
    ensures
        placed(items, order, p).map_values(|q: int| values[q]).to_multiset() == order.map_values(
            |q: int| values[q],
        ).to_multiset().insert(values[p]),
    decreases order.len(),
{
    broadcast use vstd::seq_lib::group_to_multiset_ensures;

    let pick = |q: int| values[q];
    let all = placed(items, order, p);
    if order.len() > 0 && earlier(items, p, order.last()) {
        let rest = order.drop_last();
        let inner = placed(items, rest, p);
        lemma_placed_keeps(items, rest, p, values);
        assert(all.map_values(pick) == inner.map_values(pick).push(values[order.last()]));
        assert(order.map_values(pick) == rest.map_values(pick).push(values[order.last()]));
        assert(all.map_values(pick).to_multiset() =~= order.map_values(pick).to_multiset().insert(
            values[p],
        ));
    } else {
        assert(all.map_values(pick) == order.map_values(pick).push(values[p]));
    }
}

proof fn lemma_first_in_order_keeps<R: Rank, T>(items: Seq<R>, n: nat, values: Seq<T>)
    requires
        n <= values.len(),
    ensures
        first_in_order(items, n).map_values(|q: int| values[q]).to_multiset() == values.take(
            n as int,
        ).to_multiset(),
    decreases n,
{
    broadcast use vstd::seq_lib::group_to_multiset_ensures;

    let pick = |q: int| values[q];
    if n > 0 {
        let m = (n - 1) as nat;
        lemma_first_in_order_keeps(items, m, values);
        lemma_placed_keeps(items, first_in_order(items, m), m as int, values);
        assert(values.take(n as int) == values.take(m as int).push(values[m as int]));
    } else {
        assert(first_in_order(items, n).map_values(pick) == values.take(0));
    }
}

/// Putting values in the order of their ranks neither loses nor repeats one.
pub proof fn law_an_order_keeps_every_value<R: Rank, T>(items: Seq<R>, values: Seq<T>)
    requires
        items.len() == values.len(),
    ensures
        ordering(items).map_values(|q: int| values[q]).to_multiset() == values.to_multiset(),
{
    lemma_first_in_order_keeps(items, items.len(), values);
    assert(values.take(items.len() as int) == values);
}

/// The values in the order of their ranks, and in their own sequence where the
/// rank is the same.
pub open spec fn sorted_by<R: Rank, T>(values: Seq<T>, rank: spec_fn(T) -> R) -> Seq<T> {
    ordering(values.map_values(rank)).map_values(|p: int| values[p])
}

/// A value put in its place among values that are sorted.
spec fn inserted<R: Rank, T>(list: Seq<T>, rank: spec_fn(T) -> R, value: T) -> Seq<T>
    decreases list.len(),
{
    if list.len() > 0 && rank(value).precedes(rank(list.last())) {
        inserted(list.drop_last(), rank, value).push(list.last())
    } else {
        list.push(value)
    }
}

/// The values put in their places one after the other.
spec fn insertions<R: Rank, T>(values: Seq<T>, rank: spec_fn(T) -> R) -> Seq<T>
    decreases values.len(),
{
    if values.len() == 0 {
        Seq::empty()
    } else {
        inserted(insertions(values.drop_last(), rank), rank, values.last())
    }
}

/// Whether no value ranks before one that stands before it.
spec fn never_falls<R: Rank, T>(list: Seq<T>, rank: spec_fn(T) -> R) -> bool {
    forall|i: int, j: int|
        0 <= i < j < list.len() ==> !rank(#[trigger] list[j]).precedes(rank(#[trigger] list[i]))
}

proof fn lemma_placed_inserts<R: Rank, T>(
    values: Seq<T>,
    rank: spec_fn(T) -> R,
    order: Seq<int>,
    p: int,
)
    requires
        0 <= p < values.len(),
        forall|i: int| 0 <= i < order.len() ==> 0 <= #[trigger] order[i] < p,
    ensures
        placed(values.map_values(rank), order, p).map_values(|q: int| values[q]) == inserted(
            order.map_values(|q: int| values[q]),
            rank,
            values[p],
        ),
    decreases order.len(),
{
    let items = values.map_values(rank);
    let at = |q: int| values[q];
    let list = order.map_values(at);
    if order.len() > 0 {
        let rest = order.drop_last();
        let last = order[order.len() - 1];
        assert(0 <= last < p);
        assert(items[p] == rank(values[p]) && items[last] == rank(values[last]));
        assert(earlier(items, p, last) == rank(values[p]).precedes(rank(list.last())));
        assert forall|i: int| 0 <= i < rest.len() implies 0 <= #[trigger] rest[i] < p by {
            assert(rest[i] == order[i]);
        }
        lemma_placed_inserts(values, rank, rest, p);
        assert(list.drop_last() == rest.map_values(at));
        if earlier(items, p, last) {
            assert(placed(items, order, p).map_values(at) == placed(items, rest, p).map_values(
                at,
            ).push(values[last]));
        } else {
            assert(order.push(p).map_values(at) == list.push(values[p]));
        }
    } else {
        assert(order.push(p).map_values(at) == list.push(values[p]));
    }
}

proof fn lemma_first_in_order_inserts<R: Rank, T>(values: Seq<T>, rank: spec_fn(T) -> R, n: nat)
    requires
        n <= values.len(),
    ensures
        first_in_order(values.map_values(rank), n).map_values(|q: int| values[q]) == insertions(
            values.take(n as int),
            rank,
        ),
    decreases n,
{
    let items = values.map_values(rank);
    if n > 0 {
        let m = (n - 1) as nat;
        let order = first_in_order(items, m);
        lemma_first_in_order_inserts(values, rank, m);
        lemma_first_in_order(items, m);
        assert forall|i: int| 0 <= i < order.len() implies 0 <= #[trigger] order[i] < m by {
            assert(order.contains(order[i]));
        }
        lemma_placed_inserts(values, rank, order, m as int);
        assert(values.take(n as int).drop_last() == values.take(m as int));
        assert(values.take(n as int).last() == values[m as int]);
    } else {
        assert(first_in_order(items, n).map_values(|q: int| values[q]) == Seq::<T>::empty());
    }
}

proof fn lemma_inserted<R: Rank, T>(list: Seq<T>, rank: spec_fn(T) -> R, value: T)
    requires
        never_falls(list, rank),
    ensures
        never_falls(inserted(list, rank, value), rank),
        forall|i: int|
            0 <= i < inserted(list, rank, value).len() ==> (#[trigger] inserted(list, rank, value)[i]
                == value || list.contains(inserted(list, rank, value)[i])),
    decreases list.len(),
{
    let all = inserted(list, rank, value);
    if list.len() > 0 && rank(value).precedes(rank(list.last())) {
        let rest = list.drop_last();
        let last = list[list.len() - 1];
        let inner = inserted(rest, rank, value);
        assert forall|i: int, j: int| 0 <= i < j < rest.len() implies !rank(
            #[trigger] rest[j],
        ).precedes(rank(#[trigger] rest[i])) by {
            assert(!rank(list[j]).precedes(rank(list[i])));
        }
        lemma_inserted(rest, rank, value);
        assert forall|i: int| 0 <= i < inner.len() implies (#[trigger] inner[i] == value
            || exists|k: int| 0 <= k < list.len() - 1 && #[trigger] list[k] == inner[i]) by {
            if inner[i] != value {
                let k = choose|k: int| 0 <= k < rest.len() && rest[k] == inner[i];
                assert(list[k] == inner[i]);
            }
        }
        assert forall|i: int, j: int| 0 <= i < j < all.len() implies !rank(
            #[trigger] all[j],
        ).precedes(rank(#[trigger] all[i])) by {
            assert(all[i] == inner[i]);
            if j < inner.len() {
                assert(all[j] == inner[j]);
            } else if inner[i] == value {
                if rank(last).precedes(rank(value)) {
                    R::transitive(rank(last), rank(value), rank(last));
                    R::irreflexive(rank(last));
                }
            } else {
                let k = choose|k: int| 0 <= k < list.len() - 1 && #[trigger] list[k] == inner[i];
                assert(!rank(list[list.len() - 1]).precedes(rank(list[k])));
            }
        }
        assert forall|i: int| 0 <= i < all.len() implies (#[trigger] all[i] == value
            || list.contains(all[i])) by {
            if i < inner.len() {
                assert(all[i] == inner[i]);
            } else {
                assert(list[list.len() - 1] == all[i]);
            }
        }
    } else {
        lemma_none_after(list, rank, value);
        assert forall|i: int| 0 <= i < all.len() implies (#[trigger] all[i] == value
            || list.contains(all[i])) by {
            if i < list.len() {
                assert(list[i] == all[i]);
            }
        }
    }
}

/// What does not rank before the last of sorted values ranks before none.
proof fn lemma_none_after<R: Rank, T>(list: Seq<T>, rank: spec_fn(T) -> R, value: T)
    requires
        never_falls(list, rank),
        list.len() > 0 ==> !rank(value).precedes(rank(list.last())),
    ensures
        forall|i: int| 0 <= i < list.len() ==> !rank(value).precedes(rank(#[trigger] list[i])),
{
    assert forall|i: int| 0 <= i < list.len() implies !rank(value).precedes(
        rank(#[trigger] list[i]),
    ) by {
        let n = list.len() - 1;
        if i < n && rank(value).precedes(rank(list[i])) {
            R::connected(rank(value), rank(list[n]), rank(list[i]));
            assert(!rank(list[n]).precedes(rank(list[i])));
        }
    }
}

proof fn lemma_filter_inserted<R: Rank, T>(
    list: Seq<T>,
    rank: spec_fn(T) -> R,
    value: T,
    keep: spec_fn(T) -> bool,
)
    requires
        never_falls(list, rank),
    ensures
        inserted(list, rank, value).filter(keep) == (if keep(value) {
            inserted(list.filter(keep), rank, value)
        } else {
            list.filter(keep)
        }),
    decreases list.len(),
{
    let kept = list.filter(keep);
    if list.len() > 0 && rank(value).precedes(rank(list.last())) {
        let rest = list.drop_last();
        let last = list.last();
        assert forall|i: int, j: int| 0 <= i < j < rest.len() implies !rank(
            #[trigger] rest[j],
        ).precedes(rank(#[trigger] rest[i])) by {
            assert(!rank(list[j]).precedes(rank(list[i])));
        }
        lemma_filter_inserted(rest, rank, value, keep);
        rest.lemma_filter_push(last, keep);
        assert(rest.push(last) == list);
        inserted(rest, rank, value).lemma_filter_push(last, keep);
        if keep(last) {
            assert(kept.drop_last() == rest.filter(keep));
            assert(kept.last() == last);
        }
    } else {
        lemma_none_after(list, rank, value);
        list.lemma_filter_push(value, keep);
        if kept.len() > 0 {
            assert(kept.contains(kept.last()));
            list.lemma_filter_contains_rev(keep, kept.last());
            let i = choose|i: int| 0 <= i < list.len() && list[i] == kept.last();
            assert(!rank(value).precedes(rank(list[i])));
        }
    }
}

proof fn lemma_filter_insertions<R: Rank, T>(
    values: Seq<T>,
    rank: spec_fn(T) -> R,
    keep: spec_fn(T) -> bool,
)
    ensures
        never_falls(insertions(values, rank), rank),
        insertions(values.filter(keep), rank) == insertions(values, rank).filter(keep),
    decreases values.len(),
{
    if values.len() == 0 {
        reveal(Seq::filter);
    } else {
        let rest = values.drop_last();
        let last = values.last();
        lemma_filter_insertions(rest, rank, keep);
        lemma_inserted(insertions(rest, rank), rank, last);
        lemma_filter_inserted(insertions(rest, rank), rank, last, keep);
        rest.lemma_filter_push(last, keep);
        assert(rest.push(last) == values);
        if keep(last) {
            assert(values.filter(keep).drop_last() == rest.filter(keep));
            assert(values.filter(keep).last() == last);
        }
    }
}

/// Leaving values out does not change the order of the others: it makes no
/// difference whether it is done before they are sorted, or afterwards.
pub proof fn law_leaving_out_keeps_the_order<R: Rank, T>(
    values: Seq<T>,
    rank: spec_fn(T) -> R,
    keep: spec_fn(T) -> bool,
)
    ensures
        sorted_by(values.filter(keep), rank) == sorted_by(values, rank).filter(keep),
{
    let kept = values.filter(keep);
    lemma_first_in_order_inserts(values, rank, values.len());
    lemma_first_in_order_inserts(kept, rank, kept.len());
    assert(values.take(values.len() as int) == values);
    assert(kept.take(kept.len() as int) == kept);
    lemma_filter_insertions(values, rank, keep);
}

/// What is sorted ascends: no item stands behind one that it ranks before, and items
/// that rank the same stand in the sequence that they came in.
pub proof fn law_what_is_sorted_ascends<R: Rank>(items: Seq<R>, i: int, j: int)
    requires
        0 <= i < j < items.len(),
    ensures
        ordering(items).len() == items.len(),
        0 <= ordering(items)[i] < items.len(),
        0 <= ordering(items)[j] < items.len(),
        !items[ordering(items)[j]].precedes(items[ordering(items)[i]]),
        !items[ordering(items)[i]].precedes(items[ordering(items)[j]]) ==> ordering(items)[i]
            < ordering(items)[j],
        sorted(items)[i] == items[ordering(items)[i]],
{
    law_every_list_has_an_order(items);
    let order = ordering(items);
    assert(earlier(items, order[i], order[j]));
    let (p, q) = (order[i], order[j]);
    if items[p].precedes(items[q]) && items[q].precedes(items[p]) {
        R::transitive(items[p], items[q], items[p]);
        R::irreflexive(items[p]);
    }
}

/// Every position is named exactly once.
pub proof fn law_every_position_is_named_once<R: Rank>(items: Seq<R>, p: int)
    requires
        0 <= p < items.len(),
    ensures
        ordering(items).contains(p),
        ordering(items).no_duplicates(),
        forall|i: int|
            0 <= i < ordering(items).len() ==> 0 <= #[trigger] ordering(items)[i] < items.len(),
{
    law_every_list_has_an_order(items);
    let order = ordering(items);
    assert forall|i: int, j: int| 0 <= i < order.len() && 0 <= j < order.len() && i != j implies
        order[i] != order[j] by {
        if i < j {
            assert(earlier(items, order[i], order[j]));
        } else {
            assert(earlier(items, order[j], order[i]));
        }
        R::irreflexive(items[order[i]]);
    }
}

} // verus!

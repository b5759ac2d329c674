//! Ordering by a real, best first.

use crate::reals::Real;
use vstd::prelude::*;

verus! {

/// Whether the place `i` comes before the place `j`, best first: the greater value comes
/// first, and of equal values the one that stood first.
pub open spec fn precedes(values: Seq<Real>, i: int, j: int) -> bool {
    values[i].rank() > values[j].rank() || (values[i].rank() == values[j].rank() && i < j)
}

/// Whether `order` lists the places of `values`, each once, best first.
pub open spec fn best_first(values: Seq<Real>, order: Seq<usize>) -> bool {
    &&& order.len() == values.len()
    &&& forall|a: int| 0 <= a < order.len() ==> (#[trigger] order[a]) < values.len()
    &&& forall|i: usize| i < values.len() ==> order.contains(i)
    &&& forall|a: int, b: int|
        0 <= a < b < order.len() ==> precedes(
            values,
            #[trigger] order[a] as int,
            #[trigger] order[b] as int,
        )
}

/// The places of the values, best first.
pub open spec fn places_best_first(values: Seq<Real>) -> Seq<usize> {
    choose|order: Seq<usize>| best_first(values, order)
}

/// Lists the places of the values, best first.
pub fn rank_places(values: &Vec<Real>) -> (order: Vec<usize>)
    ensures
        best_first(values@, order@),
        order@ == places_best_first(values@),
        order@.no_duplicates(),
{
    let mut order: Vec<usize> = Vec::new();
    let mut i: usize = 0;
    while i < values.len()
        invariant
            i <= values.len(),
            order@.len() == i,
            forall|a: int| 0 <= a < order@.len() ==> (#[trigger] order@[a]) < i,
            forall|x: usize| x < i ==> order@.contains(x),
            forall|a: int, b: int|
                0 <= a < b < order@.len() ==> precedes(
                    values@,
                    #[trigger] order@[a] as int,
                    #[trigger] order@[b] as int,
                ),
        decreases values.len() - i,
    {
        let mut p: usize = 0;
        while p < order.len() && !values[order[p]].ranks_below(values[i])
            invariant
                i < values@.len(),
                p <= order@.len(),
                order@.len() == i,
                forall|a: int| 0 <= a < order@.len() ==> (#[trigger] order@[a]) < i,
                forall|a: int|
                    0 <= a < p ==> values@[#[trigger] order@[a] as int].rank()
                        >= values@[i as int].rank(),
            decreases order.len() - p,
        {
            p = p + 1;
        }
        let ghost was = order@;
        order.insert(p, i);
        proof {
            assert(order@ =~= was.insert(p as int, i));
            assert forall|x: usize| x < i + 1 implies order@.contains(x) by {
                if x == i {
                    assert(order@[p as int] == x);
                } else {
                    assert(was.contains(x));
                    let a = was.index_of(x);
                    if a < p {
                        assert(order@[a] == x);
                    } else {
                        assert(order@[a + 1] == x);
                    }
                }
            }
            assert forall|a: int, b: int| 0 <= a < b < order@.len() implies precedes(
                values@,
                #[trigger] order@[a] as int,
                #[trigger] order@[b] as int,
            ) by {
                let x = if a < p {
                    a
                } else {
                    a - 1
                };
                let y = if b < p {
                    b
                } else {
                    b - 1
                };
                if a != p && b != p {
                    assert(order@[a] == was[x]);
                    assert(order@[b] == was[y]);
                } else if b == p {
                    assert(order@[a] == was[a]);
                } else {
                    assert(order@[b] == was[y]);
                    assert(values@[was[p as int] as int].rank() < values@[i as int].rank());
                    if y > p {
                        assert(precedes(values@, was[p as int] as int, was[y] as int));
                    }
                }
            }
        }
        i = i + 1;
    }
    proof {
        assert forall|a: int, b: int|
            0 <= a < order@.len() && 0 <= b < order@.len() && a != b implies order@[a]
            != order@[b] by {
            if a < b {
                assert(precedes(values@, order@[a] as int, order@[b] as int));
            } else {
                assert(precedes(values@, order@[b] as int, order@[a] as int));
            }
        }
        law_one_best_first_order(values@, order@, places_best_first(values@));
    }
    order
}

/// Where one more place belongs among places that are best first.
proof fn lemma_place_exists(values: Seq<Real>, order: Seq<usize>, n: usize) -> (p: int)
    requires
        n < values.len(),
        forall|a: int| 0 <= a < order.len() ==> (#[trigger] order[a]) < n,
        forall|a: int, b: int|
            0 <= a < b < order.len() ==> precedes(
                values,
                #[trigger] order[a] as int,
                #[trigger] order[b] as int,
            ),
    ensures
        0 <= p <= order.len(),
        forall|a: int, b: int|
            0 <= a < b <= order.len() ==> precedes(
                values,
                #[trigger] order.insert(p, n)[a] as int,
                #[trigger] order.insert(p, n)[b] as int,
            ),
    decreases order.len(),
{
    if order.len() == 0 || values[order.last() as int].rank() >= values[n as int].rank() {
        let p = order.len() as int;
        let made = order.insert(p, n);
        assert forall|a: int, b: int| 0 <= a < b <= order.len() implies precedes(
            values,
            #[trigger] made[a] as int,
            #[trigger] made[b] as int,
        ) by {
            if b == p && a < p - 1 {
                assert(precedes(values, order[a] as int, order[p - 1] as int));
            }
        }
        p
    } else {
        let fewer = order.drop_last();
        let p = lemma_place_exists(values, fewer, n);
        let some = fewer.insert(p, n);
        let made = order.insert(p, n);
        assert forall|a: int, b: int| 0 <= a < b <= order.len() implies precedes(
            values,
            #[trigger] made[a] as int,
            #[trigger] made[b] as int,
        ) by {
            if b < order.len() {
                assert(made[a] == some[a] && made[b] == some[b]);
            } else if a != p {
                let k = if a < p {
                    a
                } else {
                    a - 1
                };
                assert(made[a] == order[k]);
                assert(precedes(values, order[k] as int, order[order.len() - 1] as int));
            }
        }
        p
    }
}

proof fn lemma_best_first_of(values: Seq<Real>, n: usize) -> (order: Seq<usize>)
    requires
        n <= values.len(),
    ensures
        order.len() == n,
        forall|a: int| 0 <= a < order.len() ==> (#[trigger] order[a]) < n,
        forall|i: usize| i < n ==> order.contains(i),
        forall|a: int, b: int|
            0 <= a < b < order.len() ==> precedes(
                values,
                #[trigger] order[a] as int,
                #[trigger] order[b] as int,
            ),
    decreases n,
{
    if n == 0 {
        Seq::empty()
    } else {
        let m = (n - 1) as usize;
        let was = lemma_best_first_of(values, m);
        let p = lemma_place_exists(values, was, m);
        let order = was.insert(p, m);
        assert forall|i: usize| i < n implies order.contains(i) by {
            if i == m {
                assert(order[p] == i);
            } else {
                assert(was.contains(i));
                let a = was.index_of(i);
                let b = if a < p {
                    a
                } else {
                    a + 1
                };
                assert(order[b] == i);
            }
        }
        order
    }
}

/// Values have an order that is best first.
pub proof fn law_best_first_order_exists(values: Seq<Real>)
    requires
        values.len() <= usize::MAX,
    ensures
        best_first(values, places_best_first(values)),
{
    let order = lemma_best_first_of(values, values.len() as usize);
    assert(best_first(values, order));
}

/// Values have one order that is best first.
pub proof fn law_one_best_first_order(values: Seq<Real>, a: Seq<usize>, b: Seq<usize>)
    requires
        best_first(values, a),
        best_first(values, b),
    ensures
        a == b,
{
    lemma_same_prefix(values, a, b, values.len() as int);
    assert(a =~= b);
}

proof fn lemma_same_prefix(values: Seq<Real>, a: Seq<usize>, b: Seq<usize>, n: int)
    requires
        best_first(values, a),
        best_first(values, b),
        0 <= n <= values.len(),
    ensures
        forall|i: int| 0 <= i < n ==> a[i] == b[i],
    decreases n,
{
    if n > 0 {
        lemma_same_prefix(values, a, b, n - 1);
        let i = n - 1;
        if a[i] != b[i] {
            assert(b.contains(a[i]));
            assert(a.contains(b[i]));
            let j = b.index_of(a[i]);
            let k = a.index_of(b[i]);
            if j < i {
                assert(a[j] == b[j]);
                assert(precedes(values, a[j] as int, a[i] as int));
            } else if k < i {
                assert(a[k] == b[k]);
                assert(precedes(values, b[k] as int, b[i] as int));
            } else {
                assert(precedes(values, b[i] as int, b[j] as int));
                assert(precedes(values, a[i] as int, a[k] as int));
            }
        }
    }
}

/// Best first means: each place once, none before a place with a greater value, and places
/// with equal values as they stood. Any such list is the order.
pub proof fn law_what_best_first_means(values: Seq<Real>, order: Seq<usize>)
    ensures
        best_first(values, order) ==> order.len() == values.len() && order.no_duplicates() && (
        forall|i: usize| i < values.len() ==> order.contains(i)) && (forall|a: int, b: int|
            0 <= a < b < order.len() ==> {
                let x = #[trigger] order[a];
                let y = #[trigger] order[b];
                &&& values[x as int].rank() >= values[y as int].rank()
                &&& values[x as int].rank() == values[y as int].rank() ==> x < y
            }),
{
    if best_first(values, order) {
        assert forall|a: int, b: int|
            0 <= a < order.len() && 0 <= b < order.len() && a != b implies order[a]
            != order[b] by {
            if a < b {
                assert(precedes(values, order[a] as int, order[b] as int));
            } else {
                assert(precedes(values, order[b] as int, order[a] as int));
            }
        }
        assert forall|a: int, b: int| 0 <= a < b < order.len() implies {
            let x = #[trigger] order[a];
            let y = #[trigger] order[b];
            &&& values[x as int].rank() >= values[y as int].rank()
            &&& values[x as int].rank() == values[y as int].rank() ==> x < y
        } by {
            assert(precedes(values, order[a] as int, order[b] as int));
        }
    }
}

/// The places of values are ranked each once, none before a greater value, and places with
/// equal values as they stood.
pub proof fn law_places_are_ranked(values: Vec<Real>, order: Vec<usize>)
    requires
        call_ensures(rank_places, (&values,), order),
    ensures
        order@.len() == values@.len(),
        forall|i: usize| i < values@.len() ==> order@.contains(i),
        forall|a: int, b: int|
            0 <= a < b < order@.len() ==> {
                let x = #[trigger] order@[a];
                let y = #[trigger] order@[b];
                &&& x != y
                &&& values@[x as int].rank() >= values@[y as int].rank()
                &&& values@[x as int].rank() == values@[y as int].rank() ==> x < y
            },
{
    law_what_best_first_means(values@, order@);
}

} // verus!

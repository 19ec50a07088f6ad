//! The result orderer: a stable permutation of line indices sorted by
//! ascending distance, and the scoring of a whole batch of lines.

use vstd::prelude::*;
use vstd::slice::slice_index_get;
use crate::score::complete_of;
use crate::score::distance_of;
use crate::score::get_distance;

verus! {

/// The strict order in which the orderer emits two distinct line indices:
/// by ascending distance, and by original index when the distances tie.
pub open spec fn rank_before(distances: Seq<(usize, bool)>, a: usize, b: usize) -> bool {
    ||| distances[a as int].0 < distances[b as int].0
    ||| (distances[a as int].0 == distances[b as int].0 && a < b)
}

/// Produces the order in which the scored lines should be emitted: a
/// permutation of `0..distances.len()`, sorted so that the distance is
/// non-decreasing across it, with equal distances kept in their original
/// index order (a stable sort).
pub fn order_distances(distances: &[(usize, bool)]) -> (r: Vec<usize>)
    ensures
        r@.len() == distances@.len(),
        forall|i: int| 0 <= i < r@.len() ==> r@[i] < distances@.len(),
        forall|i: int, j: int| 0 <= i < j < r@.len() ==> r@[i] != r@[j],
        forall|v: usize| v < distances@.len() ==> #[trigger] r@.contains(v),
        forall|i: int, j: int|
            0 <= i < j < r@.len() ==> distances@[r@[i] as int].0 <= distances@[r@[j] as int].0,
        forall|i: int, j: int|
            0 <= i < j < r@.len() && distances@[r@[i] as int].0 == distances@[r@[j] as int].0
                ==> r@[i] < r@[j],
{
    let n = distances.len();
    let mut order: Vec<usize> = Vec::new();
    let mut i: usize = 0;
    while i < n
        invariant
            i <= n,
            order@.len() == i,
            forall|k: int| 0 <= k < i ==> order@[k] == k as usize,
        decreases n - i,
    {
        order.push(i);
        i = i + 1;
    }
    assert forall|v: usize| v < n implies #[trigger] order@.contains(v) by {
        assert(order@[v as int] == v);
    }

    let mut s: usize = 1;
    while s < n
        invariant
            n == distances@.len(),
            order@.len() == n,
            1 <= s <= n || n == 0,
            forall|a: int| 0 <= a < n ==> order@[a] < n,
            forall|a: int, b: int| 0 <= a < b < n ==> order@[a] != order@[b],
            forall|v: usize| v < n ==> #[trigger] order@.contains(v),
            forall|a: int, b: int| 0 <= a < b < s ==> rank_before(distances@, order@[a], order@[b]),
        decreases n - s,
    {
        let mut k: usize = s;
        while k > 0 && comes_first(distances, order[k], order[k - 1])
            invariant
                n == distances@.len(),
                order@.len() == n,
                0 <= k <= s < n,
                forall|a: int| 0 <= a < n ==> order@[a] < n,
                forall|a: int, b: int| 0 <= a < b < n ==> order@[a] != order@[b],
                forall|v: usize| v < n ==> #[trigger] order@.contains(v),
                forall|a: int, b: int|
                    0 <= a < b <= s && b != k ==> rank_before(distances@, order@[a], order@[b]),
                forall|b: int| k < b <= s ==> rank_before(distances@, order@[k as int], order@[b]),
            decreases k,
        {
            let ghost before = order@;
            let hi = order[k];
            let lo = order[k - 1];
            order.set(k - 1, hi);
            order.set(k, lo);
            proof {
                assert forall|v: usize| v < n implies #[trigger] order@.contains(v) by {
                    assert(before.contains(v));
                    let w = choose|w: int| 0 <= w < n && before[w] == v;
                    assert(before[w] == v);
                    if w == k - 1 {
                        assert(order@[k as int] == v);
                    } else if w == k {
                        assert(order@[k - 1] == v);
                    } else {
                        assert(order@[w] == v);
                    }
                }
            }
            k = k - 1;
        }
        proof {
            if k > 0 {
                // The scan stopped on an ordered pair: with two distinct
                // indices, not-after means strictly before.
                assert(order@[k - 1] != order@[k as int]);
                assert(rank_before(distances@, order@[k - 1], order@[k as int]));
            }
            assert forall|a: int, b: int|
                0 <= a < b < s + 1 implies rank_before(distances@, order@[a], order@[b]) by {
                if b == k && a < k - 1 {
                    assert(rank_before(distances@, order@[a], order@[k - 1]));
                    assert(rank_before(distances@, order@[k - 1], order@[k as int]));
                }
            }
        }
        s = s + 1;
    }
    proof {
        assert forall|i: int, j: int| #![trigger order@[i], order@[j]]
            0 <= i < j < order@.len() implies distances@[order@[i] as int].0
            <= distances@[order@[j] as int].0 && (distances@[order@[i] as int].0
            == distances@[order@[j] as int].0 ==> order@[i] < order@[j]) by {
            assert(rank_before(distances@, order@[i], order@[j]));
        }
    }
    order
}

/// The indices of `order` whose score says the match was complete, in the
/// order they stand in `order`.
pub open spec fn complete_part(order: Seq<usize>, distances: Seq<(usize, bool)>) -> Seq<usize>
    decreases order.len(),
{
    if order.len() == 0 {
        Seq::empty()
    } else {
        let rest = complete_part(order.drop_last(), distances);
        if distances[order.last() as int].1 {
            rest.push(order.last())
        } else {
            rest
        }
    }
}

/// The indices of `order` whose score says the match was incomplete, in
/// the order they stand in `order`.
pub open spec fn incomplete_part(order: Seq<usize>, distances: Seq<(usize, bool)>) -> Seq<usize>
    decreases order.len(),
{
    if order.len() == 0 {
        Seq::empty()
    } else {
        let rest = incomplete_part(order.drop_last(), distances);
        if !distances[order.last() as int].1 {
            rest.push(order.last())
        } else {
            rest
        }
    }
}

/// Scores every candidate line against the target, in order.
pub fn score_lines(target: &str, lines: &Vec<String>) -> (r: Vec<(usize, bool)>)
    requires
        forall|i: int|
            0 <= i < lines@.len() ==> target@.len() + (#[trigger] lines@[i])@.len() < usize::MAX,
    ensures
        r@.len() == lines@.len(),
        forall|i: int|
            0 <= i < lines@.len() ==> (#[trigger] r@[i]).0 == distance_of(target@, lines@[i]@),
        forall|i: int|
            0 <= i < lines@.len() ==> (#[trigger] r@[i]).1 == complete_of(target@, lines@[i]@),
{
    let mut r: Vec<(usize, bool)> = Vec::new();
    let mut i: usize = 0;
    while i < lines.len()
        invariant
            i <= lines@.len(),
            r@.len() == i,
            forall|k: int|
                0 <= k < lines@.len() ==> target@.len() + (#[trigger] lines@[k])@.len()
                    < usize::MAX,
            forall|k: int|
                0 <= k < i ==> (#[trigger] r@[k]).0 == distance_of(target@, lines@[k]@),
            forall|k: int| 0 <= k < i ==> (#[trigger] r@[k]).1 == complete_of(target@, lines@[k]@),
        decreases lines@.len() - i,
    {
        let sc = get_distance(target, lines[i].as_str());
        r.push(sc);
        i = i + 1;
    }
    r
}

/// Splits an emission order into its complete and incomplete matches,
/// keeping the order within each group: the caller's complete-first
/// output policy.
pub fn split_complete(order: &Vec<usize>, distances: &Vec<(usize, bool)>) -> (r: (
    Vec<usize>,
    Vec<usize>,
))
    requires
        forall|k: int| 0 <= k < order@.len() ==> order@[k] < distances@.len(),
    ensures
        r.0@ == complete_part(order@, distances@),
        r.1@ == incomplete_part(order@, distances@),
{
    let mut complete: Vec<usize> = Vec::new();
    let mut incomplete: Vec<usize> = Vec::new();
    let mut i: usize = 0;
    while i < order.len()
        invariant
            i <= order@.len(),
            forall|k: int| 0 <= k < order@.len() ==> order@[k] < distances@.len(),
            complete@ == complete_part(order@.subrange(0, i as int), distances@),
            incomplete@ == incomplete_part(order@.subrange(0, i as int), distances@),
        decreases order@.len() - i,
    {
        let idx = order[i];
        if distances[idx].1 {
            complete.push(idx);
        } else {
            incomplete.push(idx);
        }
        proof {
            let step = order@.subrange(0, i + 1);
            assert(step.drop_last() =~= order@.subrange(0, i as int));
            assert(step.last() == order@[i as int]);
        }
        i = i + 1;
    }
    proof {
        assert(order@.subrange(0, order@.len() as int) =~= order@);
    }
    (complete, incomplete)
}

/// Whether index `a` is emitted strictly before index `b`: its distance is
/// smaller, or the distances tie and `a` is the earlier line.
fn comes_first(distances: &[(usize, bool)], a: usize, b: usize) -> (r: bool)
    requires
        a < distances@.len(),
        b < distances@.len(),
    ensures
        r == rank_before(distances@, a, b),
{
    let da = slice_index_get(distances, a).0;
    let db = slice_index_get(distances, b).0;
    da < db || (da == db && a < b)
}

} // verus!

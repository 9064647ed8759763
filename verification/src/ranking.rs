//! The order in which an exact search lists the nodes, and the sort behind it.
//!
//! The ranking goes by the size of the distance words, which is a total order. A
//! distance that is not a number has a word above that of every number from 0
//! upward, so it ranks behind all of them.

use vstd::prelude::*;

verus! {

/// Node `i` is listed before node `j`: it is nearer, or as near and earlier in
/// the arena.
pub open spec fn ranks_before(d: Seq<u32>, i: int, j: int) -> bool {
    d[i] < d[j] || (d[i] == d[j] && i < j)
}

/// Node `i` occurs among the entries of `scores`.
pub open spec fn listed(scores: Seq<(usize, u32)>, i: int) -> bool {
    exists|a: int| 0 <= a < scores.len() && (#[trigger] scores[a]).0 == i
}

/// Node `i` ranks after every entry of `scores`.
pub open spec fn after_all(d: Seq<u32>, scores: Seq<(usize, u32)>, i: int) -> bool {
    forall|a: int| 0 <= a < scores.len() ==> ranks_before(d, (#[trigger] scores[a]).0 as int, i)
}

/// `scores` is the list of the `k` nearest nodes under the table `d`, or of all
/// nodes if there are fewer: each entry is a node with its own distance, the
/// entries stand in ranking order, and every node that is left out ranks after
/// every entry. There is one such list for each table and `k`.
pub open spec fn is_top_k(d: Seq<u32>, k: usize, scores: Seq<(usize, u32)>) -> bool {
    &&& scores.len() == if k < d.len() {
        k as nat
    } else {
        d.len()
    }
    &&& forall|a: int|
        0 <= a < scores.len() ==> (#[trigger] scores[a]).0 < d.len() && scores[a].1
            == d[scores[a].0 as int]
    &&& forall|a: int, b: int|
        0 <= a < b < scores.len() ==> ranks_before(
            d,
            (#[trigger] scores[a]).0 as int,
            (#[trigger] scores[b]).0 as int,
        )
    &&& forall|i: int| 0 <= i < d.len() ==> #[trigger] listed(scores, i) || after_all(d, scores, i)
}

/// The entries of a top-`k` list stand in ascending order of distance.
pub proof fn lemma_top_k_ascending(d: Seq<u32>, k: usize, scores: Seq<(usize, u32)>)
    requires
        is_top_k(d, k, scores),
    ensures
        forall|a: int, b: int|
            0 <= a < b < scores.len() ==> (#[trigger] scores[a]).1 <= (#[trigger] scores[b]).1,
{
    assert forall|a: int, b: int| 0 <= a < b < scores.len() implies (#[trigger] scores[a]).1 <= (
    #[trigger] scores[b]).1 by {
        assert(ranks_before(d, scores[a].0 as int, scores[b].0 as int));
    }
}

/// The first entry of a top-`k` list has a distance word no greater than that of
/// any node.
pub proof fn lemma_top_k_first_is_nearest(
    d: Seq<u32>,
    k: usize,
    scores: Seq<(usize, u32)>,
    i: int,
)
    requires
        is_top_k(d, k, scores),
        scores.len() > 0,
        0 <= i < d.len(),
    ensures
        scores[0].1 <= d[i],
{
    if listed(scores, i) {
        let a = choose|a: int| 0 <= a < scores.len() && (#[trigger] scores[a]).0 == i;
        if a > 0 {
            assert(ranks_before(d, scores[0].0 as int, scores[a].0 as int));
        }
    } else {
        assert(after_all(d, scores, i));
        assert(ranks_before(d, scores[0].0 as int, i));
    }
}

/// A table and a `k` have one top-`k` list only.
pub proof fn lemma_top_k_unique(
    d: Seq<u32>,
    k: usize,
    first: Seq<(usize, u32)>,
    second: Seq<(usize, u32)>,
)
    requires
        is_top_k(d, k, first),
        is_top_k(d, k, second),
    ensures
        first == second,
{
    assert forall|a: int| 0 <= a < first.len() implies first[a] == second[a] by {
        lemma_top_k_agree(d, k, first, second, a);
    }
    assert(first =~= second);
}

/// Two top-`k` lists of one table hold the same entry at each position.
proof fn lemma_top_k_agree(
    d: Seq<u32>,
    k: usize,
    first: Seq<(usize, u32)>,
    second: Seq<(usize, u32)>,
    a: int,
)
    requires
        is_top_k(d, k, first),
        is_top_k(d, k, second),
        0 <= a < first.len(),
    ensures
        first[a] == second[a],
    decreases a,
{
    assert forall|b: int| 0 <= b < a implies first[b] == second[b] by {
        lemma_top_k_agree(d, k, first, second, b);
    }
    let x = first[a].0 as int;
    let y = second[a].0 as int;
    if x != y {
        lemma_top_k_misplaced(d, k, first, second, a);
        lemma_top_k_misplaced(d, k, second, first, a);
    }
}

/// Of two top-`k` lists that agree before position `a`, the one cannot hold at `a`
/// a node that ranks before what the other holds there.
proof fn lemma_top_k_misplaced(
    d: Seq<u32>,
    k: usize,
    first: Seq<(usize, u32)>,
    second: Seq<(usize, u32)>,
    a: int,
)
    requires
        is_top_k(d, k, first),
        is_top_k(d, k, second),
        0 <= a < first.len(),
        forall|b: int| 0 <= b < a ==> first[b] == second[b],
        first[a].0 != second[a].0,
    ensures
        !ranks_before(d, first[a].0 as int, second[a].0 as int),
{
    let x = first[a].0 as int;
    if !ranks_before(d, x, second[a].0 as int) {
    } else if listed(second, x) {
        let c = choose|c: int| 0 <= c < second.len() && (#[trigger] second[c]).0 == x;
        if c < a {
            assert(first[c] == second[c]);
            assert(ranks_before(d, first[c].0 as int, first[a].0 as int));
        } else {
            assert(ranks_before(d, second[a].0 as int, second[c].0 as int));
        }
    } else {
        assert(after_all(d, second, x));
        assert(ranks_before(d, second[a].0 as int, x));
    }
}

/// The entry that stood at `i` stands somewhere after the sort.
pub open spec fn kept(origin: Seq<int>, i: int) -> bool {
    exists|a: int| 0 <= a < origin.len() && #[trigger] origin[a] == i
}

/// `after` holds the entries of `before` sorted by their distance, entries of
/// equal distance in the order they had before; `origin[a]` is the position in
/// `before` of the entry that stands at `a` in `after`.
pub open spec fn is_stable_sort(
    before: Seq<(usize, u32)>,
    after: Seq<(usize, u32)>,
    origin: Seq<int>,
) -> bool {
    &&& after.len() == before.len()
    &&& origin.len() == before.len()
    &&& forall|a: int|
        0 <= a < after.len() ==> 0 <= (#[trigger] origin[a]) < before.len() && after[a]
            == before[origin[a]]
    &&& forall|a: int, b: int|
        0 <= a < b < after.len() ==> (#[trigger] after[a]).1 < (#[trigger] after[b]).1 || (
        after[a].1 == after[b].1 && origin[a] < origin[b])
    &&& forall|i: int| 0 <= i < before.len() ==> #[trigger] kept(origin, i)
}

/// Sorts the entries by distance, nearest first.
///
/// Trusted: the body is `sort_by_key` of the standard library's slices, with the
/// distance as the key. The contract claims what its documentation says: the
/// slice is sorted by the key, no entry is lost or made, and the sort is stable,
/// so entries of equal key keep their order.
#[verifier::external_body]
pub(crate) fn sort_by_distance(scores: &mut Vec<(usize, u32)>)
    ensures
        exists|origin: Seq<int>| is_stable_sort(old(scores)@, final(scores)@, origin),
{
    scores.sort_by_key(|entry| entry.1);
}

} // verus!

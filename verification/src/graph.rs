//! The two traversals as mathematical functions of a graph and a table of distances.
//!
//! A graph is given by its adjacency lists, `adj[i]` being the edges that leave node
//! `i` in the order in which they were made. The table `d` gives for each node its
//! distance word to the query. Neither traversal reads anything else.

use crate::heap::{lemma_nearest_position, nearest_position, Candidate};
use crate::metrics::nearer;
use vstd::prelude::*;

verus! {

/// The table covers the graph and every edge ends inside it.
pub open spec fn graph_wf(adj: Seq<Seq<usize>>, d: Seq<u32>) -> bool {
    &&& d.len() == adj.len()
    &&& forall|i: int, j: int|
        0 <= i < adj.len() && 0 <= j < adj[i].len() ==> (#[trigger] adj[i][j]) < adj.len()
}

/// Every entry of `nbrs` is a node of a graph of `n` nodes.
pub open spec fn within(nbrs: Seq<usize>, n: nat) -> bool {
    forall|j: int| 0 <= j < nbrs.len() ==> (#[trigger] nbrs[j]) < n
}

/// A list within the graph stays within it when its last entry is taken off, and
/// that entry is a node of the graph.
pub proof fn lemma_within_front(nbrs: Seq<usize>, n: nat)
    requires
        within(nbrs, n),
        nbrs.len() > 0,
    ensures
        within(nbrs.drop_last(), n),
        nbrs.last() < n,
{
    assert forall|j: int| 0 <= j < nbrs.drop_last().len() implies (#[trigger] nbrs.drop_last()[j])
        < n by {
        assert(nbrs[j] < n);
    }
    assert(nbrs[nbrs.len() - 1] < n);
}

// ---------------------------------------------------------------------------
// Greedy descent
// ---------------------------------------------------------------------------
/// One comparison of the descent: move to `nb` only if it is strictly nearer. A
/// distance that is not a number is nearer than none, and none is nearer than it.
pub open spec fn greedy_step(d: Seq<u32>, cur: usize, nb: usize) -> usize {
    if nearer(d[nb as int], d[cur as int]) {
        nb
    } else {
        cur
    }
}

/// The node held after the neighbours `nbrs` were compared in order, starting
/// from `cur`.
pub open spec fn greedy_scan(d: Seq<u32>, cur: usize, nbrs: Seq<usize>) -> usize
    decreases nbrs.len(),
{
    if nbrs.len() == 0 {
        cur
    } else {
        greedy_step(d, greedy_scan(d, cur, nbrs.drop_last()), nbrs.last())
    }
}

/// The node at which the descent from `cur` stops: scan the neighbours of the
/// current node, move to what the scan holds if that is strictly nearer, and
/// stop when it is not.
pub open spec fn greedy_walk(adj: Seq<Seq<usize>>, d: Seq<u32>, cur: usize) -> usize
    decreases d[cur as int],
{
    let next = greedy_scan(d, cur, adj[cur as int]);
    if nearer(d[next as int], d[cur as int]) {
        greedy_walk(adj, d, next)
    } else {
        cur
    }
}

/// A scan ends on the start or on one of the neighbours, and on a node than which
/// none of them is strictly nearer. It leaves the start only for a strictly
/// nearer node.
pub proof fn lemma_greedy_scan(d: Seq<u32>, cur: usize, nbrs: Seq<usize>)
    requires
        cur < d.len(),
        within(nbrs, d.len()),
    ensures
        greedy_scan(d, cur, nbrs) < d.len(),
        d[greedy_scan(d, cur, nbrs) as int] <= d[cur as int],
        greedy_scan(d, cur, nbrs) != cur ==> nearer(
            d[greedy_scan(d, cur, nbrs) as int],
            d[cur as int],
        ),
        !nearer(d[cur as int], d[greedy_scan(d, cur, nbrs) as int]),
        greedy_scan(d, cur, nbrs) == cur || nbrs.contains(greedy_scan(d, cur, nbrs)),
        forall|j: int|
            0 <= j < nbrs.len() ==> !nearer(
                d[(#[trigger] nbrs[j]) as int],
                d[greedy_scan(d, cur, nbrs) as int],
            ),
    decreases nbrs.len(),
{
    if nbrs.len() > 0 {
        let front = nbrs.drop_last();
        lemma_greedy_scan(d, cur, front);
        let r = greedy_scan(d, cur, nbrs);
        let held = greedy_scan(d, cur, front);
        assert(nbrs.last() == nbrs[nbrs.len() - 1]);
        if r != cur {
            if r == held {
                let k = choose|k: int| 0 <= k < front.len() && front[k] == held;
                assert(nbrs[k] == r);
            } else {
                assert(nbrs[nbrs.len() - 1] == r);
            }
        }
        assert forall|j: int| 0 <= j < nbrs.len() implies !nearer(
            d[(#[trigger] nbrs[j]) as int],
            d[r as int],
        ) by {
            if j < front.len() {
                assert(front[j] == nbrs[j]);
            }
        }
    }
}

/// The descent stops inside the graph, at a word no greater than where it began,
/// and at a node none of whose neighbours is strictly nearer.
pub proof fn lemma_greedy_walk(adj: Seq<Seq<usize>>, d: Seq<u32>, cur: usize)
    requires
        graph_wf(adj, d),
        cur < adj.len(),
    ensures
        greedy_walk(adj, d, cur) < adj.len(),
        d[greedy_walk(adj, d, cur) as int] <= d[cur as int],
        forall|j: int|
            0 <= j < adj[greedy_walk(adj, d, cur) as int].len() ==> !nearer(
                d[(#[trigger] adj[greedy_walk(adj, d, cur) as int][j]) as int],
                d[greedy_walk(adj, d, cur) as int],
            ),
    decreases d[cur as int],
{
    let nbrs = adj[cur as int];
    assert(within(nbrs, d.len())) by {
        assert forall|j: int| 0 <= j < nbrs.len() implies (#[trigger] nbrs[j]) < d.len() by {
            assert(adj[cur as int][j] < adj.len());
        }
    }
    lemma_greedy_scan(d, cur, nbrs);
    let next = greedy_scan(d, cur, nbrs);
    if nearer(d[next as int], d[cur as int]) {
        lemma_greedy_walk(adj, d, next);
    }
}

// ---------------------------------------------------------------------------
// Bounded beam search
// ---------------------------------------------------------------------------
/// What a beam search holds between two steps.
pub ghost struct BeamState {
    /// The candidates that wait to be expanded, in the order in which they came.
    pub frontier: Seq<Candidate>,
    /// For each node, whether the search has met it.
    pub visited: Seq<bool>,
    /// The nearest node met so far.
    pub nearest: usize,
    /// Its distance word.
    pub nearest_distance: u32,
}

/// The number of nodes not yet met.
pub open spec fn unvisited(visited: Seq<bool>) -> nat
    decreases visited.len(),
{
    if visited.len() == 0 {
        0
    } else {
        unvisited(visited.drop_last()) + if visited.last() {
            0nat
        } else {
            1nat
        }
    }
}

/// The state in which a search from `start` begins: `start` is met, waits in the
/// frontier, and is the nearest node so far.
pub open spec fn beam_start(d: Seq<u32>, start: usize) -> BeamState {
    BeamState {
        frontier: seq![Candidate { distance: d[start as int], index: start }],
        visited: Seq::new(d.len(), |i: int| i == start),
        nearest: start,
        nearest_distance: d[start as int],
    }
}

/// What meeting the neighbour `nb` does to the state. A node met before changes
/// nothing. A new node is marked as met; it joins the frontier if it is strictly
/// nearer than the nearest so far, which it then replaces, or else if fewer than
/// `ef` candidates wait. Otherwise it is dropped. A distance that is not a number
/// improves on none, and none improves on it.
pub open spec fn beam_admit(d: Seq<u32>, ef: usize, st: BeamState, nb: usize) -> BeamState {
    if st.visited[nb as int] {
        st
    } else {
        let visited = st.visited.update(nb as int, true);
        let c = Candidate { distance: d[nb as int], index: nb };
        if nearer(d[nb as int], st.nearest_distance) {
            BeamState {
                frontier: st.frontier.push(c),
                visited,
                nearest: nb,
                nearest_distance: d[nb as int],
            }
        } else if st.frontier.len() < ef {
            BeamState { frontier: st.frontier.push(c), visited, ..st }
        } else {
            BeamState { visited, ..st }
        }
    }
}

/// The state after the neighbours `nbrs` were met in order.
pub open spec fn beam_expand(d: Seq<u32>, ef: usize, st: BeamState, nbrs: Seq<usize>) -> BeamState
    decreases nbrs.len(),
{
    if nbrs.len() == 0 {
        st
    } else {
        beam_admit(d, ef, beam_expand(d, ef, st, nbrs.drop_last()), nbrs.last())
    }
}

/// A state that a search over the graph can be in: the flags cover the graph, the
/// nearest node is a met node with its own distance, and every waiting candidate
/// is a met node of the graph.
pub open spec fn beam_state_wf(adj: Seq<Seq<usize>>, d: Seq<u32>, st: BeamState) -> bool {
    &&& graph_wf(adj, d)
    &&& st.visited.len() == adj.len()
    &&& st.nearest < adj.len()
    &&& st.visited[st.nearest as int]
    &&& st.nearest_distance == d[st.nearest as int]
    &&& forall|k: int|
        0 <= k < st.frontier.len() ==> (#[trigger] st.frontier[k]).index < adj.len()
}

/// What bounds the steps that a search can still take: each step takes a candidate
/// out, and a candidate comes in only for a node that was not met before.
pub open spec fn beam_measure(st: BeamState) -> nat {
    unvisited(st.visited) + st.frontier.len()
}

/// The state without the candidate that leaves the frontier next.
pub open spec fn beam_take(st: BeamState) -> BeamState {
    BeamState { frontier: st.frontier.remove(nearest_position(st.frontier)), ..st }
}

/// The state in which the search ends: while a candidate waits, take the nearest
/// one out and meet its neighbours.
pub open spec fn beam_drain(
    adj: Seq<Seq<usize>>,
    d: Seq<u32>,
    ef: usize,
    st: BeamState,
) -> BeamState
    decreases beam_measure(st),
    when beam_state_wf(adj, d, st)
{
    if st.frontier.len() == 0 {
        st
    } else {
        proof {
            lemma_beam_round(adj, d, ef, st);
        }
        let c = st.frontier[nearest_position(st.frontier)];
        beam_drain(adj, d, ef, beam_expand(d, ef, beam_take(st), adj[c.index as int]))
    }
}

/// The node that a beam search of width `ef` from `start` returns.
pub open spec fn beam_search(adj: Seq<Seq<usize>>, d: Seq<u32>, start: usize, ef: usize) -> usize {
    beam_drain(adj, d, ef, beam_start(d, start)).nearest
}

/// Marking a node that was not met leaves one node fewer to meet.
pub proof fn lemma_unvisited_update(visited: Seq<bool>, i: int)
    requires
        0 <= i < visited.len(),
        !visited[i],
    ensures
        unvisited(visited.update(i, true)) + 1 == unvisited(visited),
    decreases visited.len(),
{
    let after = visited.update(i, true);
    if i == visited.len() - 1 {
        assert(after.drop_last() =~= visited.drop_last());
    } else {
        lemma_unvisited_update(visited.drop_last(), i);
        assert(after.drop_last() =~= visited.drop_last().update(i, true));
    }
}

/// Meeting one neighbour keeps the state sound and does not raise the measure.
pub proof fn lemma_beam_admit(
    adj: Seq<Seq<usize>>,
    d: Seq<u32>,
    ef: usize,
    st: BeamState,
    nb: usize,
)
    requires
        beam_state_wf(adj, d, st),
        nb < adj.len(),
    ensures
        beam_state_wf(adj, d, beam_admit(d, ef, st, nb)),
        beam_measure(beam_admit(d, ef, st, nb)) <= beam_measure(st),
        beam_admit(d, ef, st, nb).nearest_distance <= st.nearest_distance,
{
    if !st.visited[nb as int] {
        lemma_unvisited_update(st.visited, nb as int);
    }
}

/// Meeting a list of neighbours keeps the state sound and does not raise the measure.
pub proof fn lemma_beam_expand(
    adj: Seq<Seq<usize>>,
    d: Seq<u32>,
    ef: usize,
    st: BeamState,
    nbrs: Seq<usize>,
)
    requires
        beam_state_wf(adj, d, st),
        within(nbrs, adj.len()),
    ensures
        beam_state_wf(adj, d, beam_expand(d, ef, st, nbrs)),
        beam_measure(beam_expand(d, ef, st, nbrs)) <= beam_measure(st),
        beam_expand(d, ef, st, nbrs).nearest_distance <= st.nearest_distance,
    decreases nbrs.len(),
{
    if nbrs.len() > 0 {
        lemma_within_front(nbrs, adj.len());
        lemma_beam_expand(adj, d, ef, st, nbrs.drop_last());
        lemma_beam_admit(adj, d, ef, beam_expand(d, ef, st, nbrs.drop_last()), nbrs.last());
    }
}

/// One round of the search, taking a candidate out and meeting its neighbours,
/// keeps the state sound and lowers the measure.
pub proof fn lemma_beam_round(adj: Seq<Seq<usize>>, d: Seq<u32>, ef: usize, st: BeamState)
    requires
        beam_state_wf(adj, d, st),
        st.frontier.len() > 0,
    ensures
        st.frontier[nearest_position(st.frontier)].index < adj.len(),
        within(adj[st.frontier[nearest_position(st.frontier)].index as int], adj.len()),
        beam_state_wf(adj, d, beam_take(st)),
        beam_state_wf(
            adj,
            d,
            beam_expand(
                d,
                ef,
                beam_take(st),
                adj[st.frontier[nearest_position(st.frontier)].index as int],
            ),
        ),
        beam_measure(
            beam_expand(
                d,
                ef,
                beam_take(st),
                adj[st.frontier[nearest_position(st.frontier)].index as int],
            ),
        ) < beam_measure(st),
        beam_expand(
            d,
            ef,
            beam_take(st),
            adj[st.frontier[nearest_position(st.frontier)].index as int],
        ).nearest_distance <= st.nearest_distance,
{
    lemma_nearest_position(st.frontier);
    let p = nearest_position(st.frontier);
    let c = st.frontier[p];
    let rest = beam_take(st);
    assert forall|k: int| 0 <= k < rest.frontier.len() implies (#[trigger] rest.frontier[k]).index
        < adj.len() by {
        if k < p {
            assert(rest.frontier[k] == st.frontier[k]);
        } else {
            assert(rest.frontier[k] == st.frontier[k + 1]);
        }
    }
    let nbrs = adj[c.index as int];
    assert(within(nbrs, adj.len())) by {
        assert forall|j: int| 0 <= j < nbrs.len() implies (#[trigger] nbrs[j]) < adj.len() by {
            assert(adj[c.index as int][j] < adj.len());
        }
    }
    lemma_beam_expand(adj, d, ef, rest, nbrs);
}

/// The state in which a search begins is sound.
pub proof fn lemma_beam_start(adj: Seq<Seq<usize>>, d: Seq<u32>, start: usize)
    requires
        graph_wf(adj, d),
        start < adj.len(),
    ensures
        beam_state_wf(adj, d, beam_start(d, start)),
{
}

/// The search ends in a sound state with an empty frontier, on a nearest node
/// whose distance word is no greater than that of the nearest node it began with.
pub proof fn lemma_beam_drain(adj: Seq<Seq<usize>>, d: Seq<u32>, ef: usize, st: BeamState)
    requires
        beam_state_wf(adj, d, st),
    ensures
        beam_state_wf(adj, d, beam_drain(adj, d, ef, st)),
        beam_drain(adj, d, ef, st).frontier.len() == 0,
        beam_drain(adj, d, ef, st).nearest_distance <= st.nearest_distance,
    decreases beam_measure(st),
{
    if st.frontier.len() > 0 {
        lemma_beam_round(adj, d, ef, st);
        let c = st.frontier[nearest_position(st.frontier)];
        lemma_beam_drain(adj, d, ef, beam_expand(d, ef, beam_take(st), adj[c.index as int]));
    }
}

/// No node that the search has met is strictly nearer than the nearest so far.
pub open spec fn nearest_of_met(d: Seq<u32>, st: BeamState) -> bool {
    forall|i: int|
        0 <= i < st.visited.len() && #[trigger] st.visited[i] ==> !nearer(
            d[i],
            st.nearest_distance,
        )
}

/// Every node met in `a` is met in `b`.
pub open spec fn met_stays_met(a: BeamState, b: BeamState) -> bool {
    &&& a.visited.len() == b.visited.len()
    &&& forall|i: int| 0 <= i < a.visited.len() && a.visited[i] ==> #[trigger] b.visited[i]
}

/// Meeting neighbours forgets no node and meets each of them.
pub proof fn lemma_beam_expand_meets(
    adj: Seq<Seq<usize>>,
    d: Seq<u32>,
    ef: usize,
    st: BeamState,
    nbrs: Seq<usize>,
)
    requires
        beam_state_wf(adj, d, st),
        within(nbrs, adj.len()),
    ensures
        met_stays_met(st, beam_expand(d, ef, st, nbrs)),
        forall|j: int|
            0 <= j < nbrs.len() ==> beam_expand(d, ef, st, nbrs).visited[(
            #[trigger] nbrs[j]) as int],
    decreases nbrs.len(),
{
    if nbrs.len() > 0 {
        let front = nbrs.drop_last();
        lemma_within_front(nbrs, adj.len());
        lemma_beam_expand_meets(adj, d, ef, st, front);
        lemma_beam_expand(adj, d, ef, st, front);
        let mid = beam_expand(d, ef, st, front);
        let end = beam_admit(d, ef, mid, nbrs.last());
        assert forall|j: int| 0 <= j < nbrs.len() implies end.visited[(
        #[trigger] nbrs[j]) as int] by {
            if j < front.len() {
                assert(front[j] == nbrs[j]);
                assert(mid.visited[front[j] as int]);
            }
        }
        assert forall|i: int|
            0 <= i < st.visited.len() && st.visited[i] implies #[trigger] end.visited[i] by {
            assert(mid.visited[i]);
        }
    }
}

/// Meeting neighbours keeps the nearest so far nearest among the nodes met.
pub proof fn lemma_beam_expand_nearest(
    adj: Seq<Seq<usize>>,
    d: Seq<u32>,
    ef: usize,
    st: BeamState,
    nbrs: Seq<usize>,
)
    requires
        beam_state_wf(adj, d, st),
        within(nbrs, adj.len()),
        nearest_of_met(d, st),
    ensures
        nearest_of_met(d, beam_expand(d, ef, st, nbrs)),
    decreases nbrs.len(),
{
    if nbrs.len() > 0 {
        let front = nbrs.drop_last();
        lemma_within_front(nbrs, adj.len());
        lemma_beam_expand_nearest(adj, d, ef, st, front);
        lemma_beam_expand(adj, d, ef, st, front);
    }
}

/// At its end a search holds as nearest a node than which no node it has met is
/// strictly nearer, and it has forgotten none of the nodes it had met before.
pub proof fn lemma_beam_drain_met(adj: Seq<Seq<usize>>, d: Seq<u32>, ef: usize, st: BeamState)
    requires
        beam_state_wf(adj, d, st),
        nearest_of_met(d, st),
    ensures
        nearest_of_met(d, beam_drain(adj, d, ef, st)),
        met_stays_met(st, beam_drain(adj, d, ef, st)),
    decreases beam_measure(st),
{
    if st.frontier.len() > 0 {
        lemma_beam_round(adj, d, ef, st);
        let c = st.frontier[nearest_position(st.frontier)];
        let nbrs = adj[c.index as int];
        lemma_beam_expand_meets(adj, d, ef, beam_take(st), nbrs);
        lemma_beam_expand_nearest(adj, d, ef, beam_take(st), nbrs);
        let next = beam_expand(d, ef, beam_take(st), nbrs);
        lemma_beam_drain_met(adj, d, ef, next);
        let end = beam_drain(adj, d, ef, next);
        assert forall|i: int|
            0 <= i < st.visited.len() && st.visited[i] implies #[trigger] end.visited[i] by {
            assert(beam_take(st).visited[i]);
            assert(next.visited[i]);
        }
    }
}

/// The nodes that a beam search of width `ef` from `start` has met when it ends.
pub open spec fn beam_met(adj: Seq<Seq<usize>>, d: Seq<u32>, start: usize, ef: usize) -> Seq<bool> {
    beam_drain(adj, d, ef, beam_start(d, start)).visited
}

/// A beam search returns a node than which no node it has met is strictly nearer;
/// and it has met its start and every neighbour of its start, whatever its width.
pub proof fn lemma_beam_search_met(adj: Seq<Seq<usize>>, d: Seq<u32>, start: usize, ef: usize)
    requires
        graph_wf(adj, d),
        start < adj.len(),
    ensures
        beam_met(adj, d, start, ef).len() == adj.len(),
        forall|i: int|
            0 <= i < adj.len() && #[trigger] beam_met(adj, d, start, ef)[i] ==> !nearer(
                d[i],
                d[beam_search(adj, d, start, ef) as int],
            ),
        beam_met(adj, d, start, ef)[start as int],
        forall|j: int|
            0 <= j < adj[start as int].len() ==> beam_met(adj, d, start, ef)[(
            #[trigger] adj[start as int][j]) as int],
{
    let st = beam_start(d, start);
    lemma_beam_start(adj, d, start);
    lemma_beam_drain(adj, d, ef, st);
    lemma_beam_drain_met(adj, d, ef, st);
    let end = beam_drain(adj, d, ef, st);
    assert(nearest_position(st.frontier) == 0);
    assert(st.frontier[0].index == start);
    lemma_beam_round(adj, d, ef, st);
    let nbrs = adj[start as int];
    lemma_beam_expand_meets(adj, d, ef, beam_take(st), nbrs);
    lemma_beam_expand_nearest(adj, d, ef, beam_take(st), nbrs);
    let next = beam_expand(d, ef, beam_take(st), nbrs);
    lemma_beam_drain_met(adj, d, ef, next);
    assert(end == beam_drain(adj, d, ef, next));
    assert forall|j: int| 0 <= j < nbrs.len() implies end.visited[(#[trigger] nbrs[j]) as int] by {
        assert(next.visited[nbrs[j] as int]);
    }
}

/// A beam search returns a node of the graph whose distance word is no greater
/// than that of its start.
pub proof fn lemma_beam_search(adj: Seq<Seq<usize>>, d: Seq<u32>, start: usize, ef: usize)
    requires
        graph_wf(adj, d),
        start < adj.len(),
    ensures
        beam_search(adj, d, start, ef) < adj.len(),
        d[beam_search(adj, d, start, ef) as int] <= d[start as int],
{
    lemma_beam_start(adj, d, start);
    lemma_beam_drain(adj, d, ef, beam_start(d, start));
}

} // verus!

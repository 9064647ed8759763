//! Reachability, and what a beam search that is wide enough is sure to find.

use crate::graph::{
    beam_admit, beam_drain, beam_expand, beam_measure, beam_met, beam_search, beam_start,
    beam_state_wf, beam_take, graph_wf, lemma_beam_drain, lemma_beam_expand,
    lemma_beam_expand_meets, lemma_beam_round, lemma_beam_search_met, lemma_beam_start,
    lemma_unvisited_update, lemma_within_front, unvisited, within, BeamState,
};
use crate::heap::{lemma_nearest_position, nearest_position, Candidate};
use crate::metrics::nearer;
use vstd::prelude::*;

verus! {

/// `path` is a walk along edges of the graph: it holds at least one node, and
/// each node after the first is a neighbour of the one before it.
pub open spec fn is_path(adj: Seq<Seq<usize>>, path: Seq<usize>) -> bool {
    &&& path.len() > 0
    &&& forall|k: int| 0 <= k < path.len() ==> (#[trigger] path[k]) < adj.len()
    &&& forall|k: int|
        0 <= k < path.len() - 1 ==> adj[path[k] as int].contains(#[trigger] path[k + 1])
}

/// Node `i` waits in the frontier.
pub open spec fn waiting(st: BeamState, i: int) -> bool {
    exists|k: int| 0 <= k < st.frontier.len() && (#[trigger] st.frontier[k]).index == i
}

/// Every neighbour of node `i` has been met.
pub open spec fn all_neighbours_met(adj: Seq<Seq<usize>>, st: BeamState, i: int) -> bool {
    forall|j: int| 0 <= j < adj[i].len() ==> st.visited[(#[trigger] adj[i][j]) as int]
}

/// Nothing was dropped so far: every node that has been met waits in the
/// frontier or has had all its neighbours met, but for the node `current`
/// whose neighbours are being met.
pub open spec fn nothing_dropped(adj: Seq<Seq<usize>>, st: BeamState, current: int) -> bool {
    forall|i: int|
        0 <= i < adj.len() && #[trigger] st.visited[i] ==> waiting(st, i) || i == current
            || all_neighbours_met(adj, st, i)
}

/// A list of flags with a raised one counts fewer lowered flags than it is long.
pub proof fn lemma_unvisited_bound(visited: Seq<bool>, i: int)
    requires
        0 <= i < visited.len(),
        visited[i],
    ensures
        unvisited(visited) + 1 <= visited.len(),
    decreases visited.len(),
{
    lemma_unvisited_at_most(visited.drop_last());
    if i < visited.len() - 1 {
        lemma_unvisited_bound(visited.drop_last(), i);
    }
}

/// A list of flags counts no more lowered flags than it is long.
pub proof fn lemma_unvisited_at_most(visited: Seq<bool>)
    ensures
        unvisited(visited) <= visited.len(),
    decreases visited.len(),
{
    if visited.len() > 0 {
        lemma_unvisited_at_most(visited.drop_last());
    }
}

/// Meeting a neighbour drops nothing while the frontier has room for every node
/// but one. A neighbour is met only after a candidate has left the frontier, and
/// it is itself not yet met, so two nodes at least do not wait.
pub proof fn lemma_admit_drops_nothing(
    adj: Seq<Seq<usize>>,
    d: Seq<u32>,
    ef: usize,
    st: BeamState,
    nb: usize,
    current: int,
)
    requires
        beam_state_wf(adj, d, st),
        nb < adj.len(),
        nothing_dropped(adj, st, current),
        beam_measure(st) + 1 <= adj.len(),
        ef + 1 >= adj.len(),
    ensures
        nothing_dropped(adj, beam_admit(d, ef, st, nb), current),
{
    let end = beam_admit(d, ef, st, nb);
    if !st.visited[nb as int] {
        lemma_unvisited_update(st.visited, nb as int);
        assert(st.frontier.len() < ef);
        assert(end.frontier == st.frontier.push(Candidate { distance: d[nb as int], index: nb }));
        assert forall|i: int| 0 <= i < adj.len() && #[trigger] end.visited[i] implies waiting(
            end,
            i,
        ) || i == current || all_neighbours_met(adj, end, i) by {
            if i == nb {
                assert(end.frontier[st.frontier.len() as int].index == i);
            } else {
                assert(st.visited[i]);
                if waiting(st, i) {
                    let k = choose|k: int|
                        0 <= k < st.frontier.len() && (#[trigger] st.frontier[k]).index == i;
                    assert(end.frontier[k].index == i);
                } else if i != current {
                    assert(all_neighbours_met(adj, st, i));
                    assert forall|j: int| 0 <= j < adj[i].len() implies end.visited[(
                    #[trigger] adj[i][j]) as int] by {
                        assert(st.visited[adj[i][j] as int]);
                    }
                }
            }
        }
    }
}

/// Meeting a list of neighbours drops nothing while the frontier has room for
/// every node but one.
pub proof fn lemma_expand_drops_nothing(
    adj: Seq<Seq<usize>>,
    d: Seq<u32>,
    ef: usize,
    st: BeamState,
    nbrs: Seq<usize>,
    current: int,
)
    requires
        beam_state_wf(adj, d, st),
        within(nbrs, adj.len()),
        nothing_dropped(adj, st, current),
        beam_measure(st) + 1 <= adj.len(),
        ef + 1 >= adj.len(),
    ensures
        nothing_dropped(adj, beam_expand(d, ef, st, nbrs), current),
    decreases nbrs.len(),
{
    if nbrs.len() > 0 {
        let front = nbrs.drop_last();
        lemma_within_front(nbrs, adj.len());
        lemma_expand_drops_nothing(adj, d, ef, st, front, current);
        lemma_beam_expand(adj, d, ef, st, front);
        lemma_admit_drops_nothing(adj, d, ef, beam_expand(d, ef, st, front), nbrs.last(), current);
    }
}

/// A search that has room for every node but one ends with every met node's
/// neighbours met.
pub proof fn lemma_drain_drops_nothing(adj: Seq<Seq<usize>>, d: Seq<u32>, ef: usize, st: BeamState)
    requires
        beam_state_wf(adj, d, st),
        nothing_dropped(adj, st, -1),
        beam_measure(st) <= adj.len(),
        ef + 1 >= adj.len(),
    ensures
        nothing_dropped(adj, beam_drain(adj, d, ef, st), -1),
        beam_drain(adj, d, ef, st).frontier.len() == 0,
    decreases beam_measure(st),
{
    if st.frontier.len() > 0 {
        lemma_beam_round(adj, d, ef, st);
        lemma_nearest_position(st.frontier);
        let p = nearest_position(st.frontier);
        let c = st.frontier[p];
        let rest = beam_take(st);
        let nbrs = adj[c.index as int];
        assert(nothing_dropped(adj, rest, c.index as int)) by {
            assert forall|i: int| 0 <= i < adj.len() && #[trigger] rest.visited[i] implies waiting(
                rest,
                i,
            ) || i == c.index as int || all_neighbours_met(adj, rest, i) by {
                if waiting(st, i) && i != c.index as int {
                    let k = choose|k: int|
                        0 <= k < st.frontier.len() && (#[trigger] st.frontier[k]).index == i;
                    if k < p {
                        assert(rest.frontier[k].index == i);
                    } else {
                        assert(rest.frontier[k - 1] == st.frontier[k]);
                        assert(rest.frontier[k - 1].index == i);
                    }
                } else if i != c.index as int {
                    assert(all_neighbours_met(adj, st, i));
                }
            }
        }
        lemma_expand_drops_nothing(adj, d, ef, rest, nbrs, c.index as int);
        lemma_beam_expand_meets(adj, d, ef, rest, nbrs);
        let next = beam_expand(d, ef, rest, nbrs);
        assert(nothing_dropped(adj, next, -1)) by {
            assert forall|i: int| 0 <= i < adj.len() && #[trigger] next.visited[i] implies waiting(
                next,
                i,
            ) || i == -1 || all_neighbours_met(adj, next, i) by {
                if i == c.index as int {
                    assert(all_neighbours_met(adj, next, i));
                }
            }
        }
        lemma_drain_drops_nothing(adj, d, ef, next);
    } else {
        lemma_beam_drain(adj, d, ef, st);
    }
}

/// Where every met node has had its neighbours met, a walk that begins at a met
/// node passes through met nodes only.
pub proof fn lemma_path_is_met(adj: Seq<Seq<usize>>, st: BeamState, path: Seq<usize>, k: int)
    requires
        st.visited.len() == adj.len(),
        st.frontier.len() == 0,
        nothing_dropped(adj, st, -1),
        is_path(adj, path),
        st.visited[path[0] as int],
        0 <= k < path.len(),
    ensures
        st.visited[path[k] as int],
    decreases k,
{
    if k > 0 {
        lemma_path_is_met(adj, st, path, k - 1);
        let i = path[k - 1] as int;
        assert(st.visited[i]);
        assert(!waiting(st, i));
        assert(all_neighbours_met(adj, st, i));
        assert(adj[i].contains(path[k - 1 + 1]));
        let j = choose|j: int| 0 <= j < adj[i].len() && adj[i][j] == path[k];
        assert(st.visited[adj[i][j] as int]);
    }
}

/// A beam search whose width is at least the number of nodes less one meets
/// every node that a walk from its start leads to, and so returns a node than
/// which none of them is strictly nearer.
pub proof fn lemma_wide_beam_is_exact(
    adj: Seq<Seq<usize>>,
    d: Seq<u32>,
    start: usize,
    ef: usize,
    path: Seq<usize>,
)
    requires
        graph_wf(adj, d),
        start < adj.len(),
        ef + 1 >= adj.len(),
        is_path(adj, path),
        path[0] == start,
    ensures
        beam_met(adj, d, start, ef)[path.last() as int],
        !nearer(d[path.last() as int], d[beam_search(adj, d, start, ef) as int]),
{
    let st = beam_start(d, start);
    lemma_beam_start(adj, d, start);
    lemma_unvisited_bound(st.visited, start as int);
    assert(nothing_dropped(adj, st, -1)) by {
        assert(st.frontier[0].index == start);
        assert forall|i: int| 0 <= i < adj.len() && #[trigger] st.visited[i] implies waiting(
            st,
            i,
        ) by {
            assert(i == start);
        }
    }
    lemma_drain_drops_nothing(adj, d, ef, st);
    lemma_beam_drain(adj, d, ef, st);
    lemma_beam_search_met(adj, d, start, ef);
    let end = beam_drain(adj, d, ef, st);
    lemma_path_is_met(adj, end, path, path.len() - 1);
    assert(path.last() == path[path.len() - 1]);
}

} // verus!

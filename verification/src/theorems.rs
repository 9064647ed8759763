//! What holds of every index, proved from the models of its operations.

use crate::graph::lemma_beam_search;
use crate::index::{
    all_of_dimension, anchor_for, appended, assembled, first_chunk_len, graph_result, index_wf,
    inserted, inserted_batch, inserted_chunk, lemma_anchor_for, lemma_appended_wf,
    lemma_index_graph, IndexView, INSERT_WIDTH,
};
use crate::metrics::{distances, is_nan_word, nearer};
use crate::node::{adjacency, NodeView};
use crate::ranking::{is_top_k, lemma_top_k_first_is_nearest};
use crate::reach::{is_path, lemma_wide_beam_is_exact};
use vstd::prelude::*;

verus! {

/// An exact search is never beaten: the distance word that heads its result is
/// no greater than the one that a graph search of any width reports.
pub proof fn lemma_exact_search_not_beaten<K: Fn(&Vec<u32>, &Vec<u32>) -> u32>(
    v: IndexView,
    kernel: &K,
    query: Seq<u32>,
    k: usize,
    ef: usize,
    scores: Seq<(usize, u32)>,
)
    requires
        index_wf(v),
        is_top_k(distances(kernel, query, v.nodes), k, scores),
        scores.len() > 0,
    ensures
        scores[0].1 <= graph_result(v, kernel, query, ef).1,
{
    let d = distances(kernel, query, v.nodes);
    match v.entry_point {
        Some(e) => {
            lemma_index_graph(v, kernel, query);
            lemma_beam_search(adjacency(v.nodes), d, e, ef);
            let best = graph_result(v, kernel, query, ef).0;
            lemma_top_k_first_is_nearest(d, k, scores, best as int);
        },
        None => {},
    }
}

/// The parts of a well-formed index make up that index again.
pub proof fn lemma_parts_round_trip(v: IndexView)
    requires
        index_wf(v),
    ensures
        assembled(v.nodes, v.dimension, v.entry_point) == Some(v),
{
}

/// `states` are the values that an index takes while `vectors` are inserted one
/// by one, beginning with `start`.
pub open spec fn is_run<K: Fn(&Vec<u32>, &Vec<u32>) -> u32>(
    states: Seq<IndexView>,
    start: IndexView,
    kernel: &K,
    vectors: Seq<Seq<u32>>,
) -> bool {
    &&& states.len() == vectors.len() + 1
    &&& states[0] == start
    &&& forall|i: int|
        0 <= i < vectors.len() ==> states[i + 1] == inserted(
            states[i],
            kernel,
            #[trigger] vectors[i],
        )
}

/// Insertion has no hidden input: two runs that begin with the same index and
/// insert the same vectors in the same order pass through the same values, node
/// for node and edge for edge.
pub proof fn lemma_runs_agree<K: Fn(&Vec<u32>, &Vec<u32>) -> u32>(
    first: Seq<IndexView>,
    second: Seq<IndexView>,
    start: IndexView,
    kernel: &K,
    vectors: Seq<Seq<u32>>,
)
    requires
        is_run(first, start, kernel, vectors),
        is_run(second, start, kernel, vectors),
    ensures
        first == second,
{
    assert forall|i: int| 0 <= i < first.len() implies first[i] == second[i] by {
        lemma_runs_agree_at(first, second, start, kernel, vectors, i);
    }
    assert(first =~= second);
}

proof fn lemma_runs_agree_at<K: Fn(&Vec<u32>, &Vec<u32>) -> u32>(
    first: Seq<IndexView>,
    second: Seq<IndexView>,
    start: IndexView,
    kernel: &K,
    vectors: Seq<Seq<u32>>,
    i: int,
)
    requires
        is_run(first, start, kernel, vectors),
        is_run(second, start, kernel, vectors),
        0 <= i < first.len(),
    ensures
        first[i] == second[i],
    decreases i,
{
    if i > 0 {
        lemma_runs_agree_at(first, second, start, kernel, vectors, i - 1);
        let v = vectors[i - 1];
        assert(first[i - 1 + 1] == inserted(first[i - 1], kernel, v));
        assert(second[i - 1 + 1] == inserted(second[i - 1], kernel, v));
    }
}

/// `new` is `old` grown: it has the same dimension, every node of `old` stands at
/// its position with its vector, its edges stand in their order in front of any
/// new one, and an entry point, once there, has stayed.
pub open spec fn grown_from(old: IndexView, new: IndexView) -> bool {
    &&& old.nodes.len() <= new.nodes.len()
    &&& new.dimension == old.dimension
    &&& old.entry_point.is_some() ==> new.entry_point == old.entry_point
    &&& forall|i: int|
        0 <= i < old.nodes.len() ==> (#[trigger] new.nodes[i]).vector == old.nodes[i].vector
            && old.nodes[i].neighbors.is_prefix_of(new.nodes[i].neighbors)
}

/// The arena only grows: appending keeps every node at its position with its
/// vector, and keeps its edges, in their order, in front of any new one.
pub proof fn lemma_appended_grows(v: IndexView, vector: Seq<u32>, anchor: usize)
    requires
        index_wf(v),
        v.nodes.len() > 0 ==> anchor < v.nodes.len(),
    ensures
        grown_from(v, appended(v, vector, anchor)),
{
    let w = appended(v, vector, anchor);
    assert forall|i: int| 0 <= i < v.nodes.len() implies (#[trigger] w.nodes[i]).vector
        == v.nodes[i].vector && v.nodes[i].neighbors.is_prefix_of(w.nodes[i].neighbors) by {
        if i == anchor {
            assert(w.nodes[i].neighbors.len() == v.nodes[i].neighbors.len() + 1);
        } else {
            assert(w.nodes[i] == v.nodes[i]);
        }
    }
}

/// What has grown from something grown has grown from it.
pub proof fn lemma_grown_twice(a: IndexView, b: IndexView, c: IndexView)
    requires
        grown_from(a, b),
        grown_from(b, c),
    ensures
        grown_from(a, c),
{
    assert forall|i: int| 0 <= i < a.nodes.len() implies (#[trigger] c.nodes[i]).vector
        == a.nodes[i].vector && a.nodes[i].neighbors.is_prefix_of(c.nodes[i].neighbors) by {
        assert(b.nodes[i].vector == a.nodes[i].vector);
        assert(a.nodes[i].neighbors.is_prefix_of(b.nodes[i].neighbors));
        assert(b.nodes[i].neighbors.is_prefix_of(c.nodes[i].neighbors));
    }
}

/// The number of edges of the graph, each direction counted.
pub open spec fn edge_count(nodes: Seq<NodeView>) -> nat
    decreases nodes.len(),
{
    if nodes.len() == 0 {
        0
    } else {
        edge_count(nodes.drop_last()) + nodes.last().neighbors.len()
    }
}

/// The graph has the shape of a tree that grew node by node: with its edges
/// counted in both directions there are two for each node but the first, and
/// the first edge of each node but the first leads to an earlier node.
pub open spec fn tree_shaped(v: IndexView) -> bool {
    &&& v.nodes.len() > 0 ==> edge_count(v.nodes) + 2 == 2 * v.nodes.len()
    &&& forall|i: int|
        0 < i < v.nodes.len() ==> (#[trigger] v.nodes[i]).neighbors.len() > 0
            && v.nodes[i].neighbors[0] < i
}

/// Giving a node another adjacency list changes the number of edges by the
/// difference of the lengths.
pub proof fn lemma_edge_count_update(nodes: Seq<NodeView>, a: int, node: NodeView)
    requires
        0 <= a < nodes.len(),
    ensures
        edge_count(nodes.update(a, node)) + nodes[a].neighbors.len() == edge_count(nodes)
            + node.neighbors.len(),
    decreases nodes.len(),
{
    let after = nodes.update(a, node);
    if a == nodes.len() - 1 {
        assert(after.drop_last() =~= nodes.drop_last());
    } else {
        lemma_edge_count_update(nodes.drop_last(), a, node);
        assert(after.drop_last() =~= nodes.drop_last().update(a, node));
    }
}

/// Appending keeps the shape of a tree: it makes one edge, counted twice, from
/// the new node to an earlier one.
pub proof fn lemma_appended_tree(v: IndexView, vector: Seq<u32>, anchor: usize)
    requires
        tree_shaped(v),
        v.nodes.len() > 0 ==> anchor < v.nodes.len(),
        v.nodes.len() <= usize::MAX,
    ensures
        tree_shaped(appended(v, vector, anchor)),
{
    let w = appended(v, vector, anchor);
    let n = v.nodes.len() as int;
    if n == 0 {
        assert(w.nodes.len() == 1);
        assert(w.nodes.drop_last() =~= Seq::<NodeView>::empty());
        assert(w.nodes.last().neighbors.len() == 0);
        assert(edge_count(w.nodes.drop_last()) == 0);
        assert(edge_count(w.nodes) == 0);
    } else {
        let a = anchor as int;
        let linked = NodeView { neighbors: v.nodes[a].neighbors.push(n as usize), ..v.nodes[a] };
        let mid = v.nodes.update(a, linked);
        lemma_edge_count_update(v.nodes, a, linked);
        assert(w.nodes.len() == n + 1);
        assert(w.nodes.drop_last() =~= mid);
        assert(w.nodes.last().neighbors =~= seq![anchor]);
        assert(edge_count(w.nodes) == edge_count(mid) + 1);
        assert forall|i: int| 0 < i < w.nodes.len() implies (#[trigger] w.nodes[i]).neighbors.len()
            > 0 && w.nodes[i].neighbors[0] < i by {
            if i < n {
                assert(v.nodes[i].neighbors.len() > 0 && v.nodes[i].neighbors[0] < i);
            }
        }
    }
}

/// An empty index is well formed, and its graph connected, reciprocal and of the
/// shape of a tree, there being nothing in it.
pub proof fn lemma_empty_sound(dimension: usize)
    ensures
        index_wf(IndexView { nodes: Seq::empty(), dimension, entry_point: None }),
        connected(IndexView { nodes: Seq::empty(), dimension, entry_point: None }),
        reciprocal(Seq::<NodeView>::empty()),
        tree_shaped(IndexView { nodes: Seq::empty(), dimension, entry_point: None }),
{
}

/// Every edge has its edge back: `j` is a neighbour of `i` only if `i` is one of `j`.
pub open spec fn reciprocal(nodes: Seq<NodeView>) -> bool {
    forall|i: int, j: int|
        #![trigger nodes[i].neighbors.contains(j as usize)]
        0 <= i < nodes.len() && 0 <= j < nodes.len() && nodes[i].neighbors.contains(j as usize)
            ==> nodes[j].neighbors.contains(i as usize)
}

/// Appending keeps the graph reciprocal: the one edge that it makes, it makes in
/// both directions.
pub proof fn lemma_appended_reciprocal(v: IndexView, vector: Seq<u32>, anchor: usize)
    requires
        index_wf(v),
        reciprocal(v.nodes),
        v.nodes.len() > 0 ==> anchor < v.nodes.len(),
        v.nodes.len() <= usize::MAX,
    ensures
        reciprocal(appended(v, vector, anchor).nodes),
{
    let w = appended(v, vector, anchor);
    let ns = w.nodes;
    let n = v.nodes.len() as int;
    assert forall|i: int, j: int|
        0 <= i < ns.len() && 0 <= j < ns.len() && #[trigger] ns[i].neighbors.contains(
            j as usize,
        ) implies ns[j].neighbors.contains(i as usize) by {
        if n > 0 {
            let a = anchor as int;
            let p = choose|p: int|
                0 <= p < ns[i].neighbors.len() && ns[i].neighbors[p] == j as usize;
            if i == n {
                assert(j == a);
                assert(ns[a].neighbors[v.nodes[a].neighbors.len() as int] == n as usize);
            } else if j == n {
                if i != a {
                    assert(v.nodes[i].neighbors[p] < v.nodes.len());
                }
                assert(ns[n].neighbors[0] == anchor);
            } else {
                assert(v.nodes[i].neighbors[p] == j as usize);
                assert(v.nodes[i].neighbors.contains(j as usize));
                assert(v.nodes[j].neighbors.contains(i as usize));
                let q = choose|q: int|
                    0 <= q < v.nodes[j].neighbors.len() && v.nodes[j].neighbors[q] == i as usize;
                assert(ns[j].neighbors[q] == i as usize);
            }
        }
    }
}

/// What one chunk leaves behind: the arena has grown by the chunk, in its order,
/// and each new node but the first node of all has one edge, to its anchor.
pub open spec fn chunk_shape<K: Fn(&Vec<u32>, &Vec<u32>) -> u32>(
    before: IndexView,
    kernel: &K,
    chunk: Seq<Seq<u32>>,
    after: IndexView,
) -> bool {
    &&& index_wf(after)
    &&& after.dimension == before.dimension
    &&& after.nodes.len() == before.nodes.len() + chunk.len()
    &&& forall|j: int|
        0 <= j < chunk.len() ==> {
            &&& after.nodes[before.nodes.len() + j].vector == #[trigger] chunk[j]
            &&& before.nodes.len() + j > 0 ==> after.nodes[before.nodes.len() + j].neighbors
                == seq![anchor_for(before, kernel, chunk[j])]
        }
}

/// Vectors of one chunk are not joined to each other. Each gets the anchor that
/// was found for it before the chunk began: a node that the index held then, or,
/// if it held none, the chunk's first vector, which is the entry point from then on.
pub proof fn lemma_chunk_anchors_precede<K: Fn(&Vec<u32>, &Vec<u32>) -> u32>(
    before: IndexView,
    kernel: &K,
    chunk: Seq<Seq<u32>>,
)
    requires
        index_wf(before),
        all_of_dimension(chunk, before.dimension),
        before.nodes.len() + chunk.len() <= usize::MAX,
    ensures
        chunk_shape(before, kernel, chunk, inserted_chunk(before, kernel, chunk, before)),
        forall|j: int|
            0 <= j < chunk.len() && before.nodes.len() > 0 ==> anchor_for(
                before,
                kernel,
                #[trigger] chunk[j],
            ) < before.nodes.len(),
        forall|j: int|
            0 <= j < chunk.len() && before.nodes.len() == 0 ==> anchor_for(
                before,
                kernel,
                #[trigger] chunk[j],
            ) == 0,
    decreases chunk.len(),
{
    assert forall|j: int| 0 <= j < chunk.len() implies (before.nodes.len() > 0 ==> anchor_for(
        before,
        kernel,
        #[trigger] chunk[j],
    ) < before.nodes.len()) && (before.nodes.len() == 0 ==> anchor_for(before, kernel, chunk[j])
        == 0) by {
        lemma_anchor_for(before, kernel, chunk[j]);
    }
    if chunk.len() > 0 {
        let front = chunk.drop_last();
        assert(all_of_dimension(front, before.dimension)) by {
            assert forall|j: int| 0 <= j < front.len() implies (#[trigger] front[j]).len()
                == before.dimension by {
                assert(front[j] == chunk[j]);
            }
        }
        lemma_chunk_anchors_precede(before, kernel, front);
        let mid = inserted_chunk(before, kernel, front, before);
        let last = chunk.last();
        assert(last == chunk[chunk.len() - 1]);
        let anchor = anchor_for(before, kernel, last);
        lemma_anchor_for(before, kernel, last);
        lemma_appended_wf(mid, last, anchor);
        let after = appended(mid, last, anchor);
        assert(after == inserted_chunk(before, kernel, chunk, before));
        let n0 = before.nodes.len() as int;
        assert forall|j: int| 0 <= j < chunk.len() implies {
            &&& after.nodes[n0 + j].vector == #[trigger] chunk[j]
            &&& n0 + j > 0 ==> after.nodes[n0 + j].neighbors == seq![
                anchor_for(before, kernel, chunk[j]),
            ]
        } by {
            if j < front.len() {
                assert(front[j] == chunk[j]);
                assert(mid.nodes[n0 + j].vector == front[j]);
                if n0 + j > 0 {
                    assert(anchor as int != n0 + j);
                }
            } else {
                if n0 + j > 0 {
                    assert(after.nodes[n0 + j].neighbors =~= seq![anchor]);
                }
            }
        }
    }
}

/// A walk along edges leads from the entry point to node `i`.
pub open spec fn reached(v: IndexView, i: int) -> bool {
    exists|path: Seq<usize>|
        #[trigger] is_path(adjacency(v.nodes), path) && v.entry_point == Some(path[0])
            && path.last() == i
}

/// Every node can be reached from the entry point.
pub open spec fn connected(v: IndexView) -> bool {
    forall|i: int| 0 <= i < v.nodes.len() ==> #[trigger] reached(v, i)
}

/// Appending keeps the graph connected: the new node hangs on its anchor, and
/// the walks to the older nodes are still there.
pub proof fn lemma_appended_connected(v: IndexView, vector: Seq<u32>, anchor: usize)
    requires
        index_wf(v),
        connected(v),
        v.nodes.len() > 0 ==> anchor < v.nodes.len(),
        v.nodes.len() <= usize::MAX,
    ensures
        connected(appended(v, vector, anchor)),
{
    let w = appended(v, vector, anchor);
    let n = v.nodes.len() as int;
    let adj_v = adjacency(v.nodes);
    let adj_w = adjacency(w.nodes);
    assert forall|i: int| 0 <= i < w.nodes.len() implies #[trigger] reached(w, i) by {
        if n == 0 {
            let path = seq![0usize];
            assert(is_path(adj_w, path));
            assert(path.last() == i);
        } else {
            let target = if i < n {
                i
            } else {
                anchor as int
            };
            assert(reached(v, target));
            let old_path = choose|path: Seq<usize>|
                #[trigger] is_path(adj_v, path) && v.entry_point == Some(path[0]) && path.last()
                    == target;
            assert(is_path(adj_w, old_path)) by {
                assert forall|k: int|
                    0 <= k < old_path.len() - 1 implies adj_w[old_path[k] as int].contains(
                    #[trigger] old_path[k + 1],
                ) by {
                    let x = old_path[k] as int;
                    assert(old_path[k] < adj_v.len());
                    assert(adj_v[x].contains(old_path[k + 1]));
                    let j = choose|j: int|
                        0 <= j < adj_v[x].len() && adj_v[x][j] == old_path[k + 1];
                    assert(adj_w[x][j] == old_path[k + 1]);
                }
            }
            if i < n {
                assert(old_path.last() == i);
            } else {
                let path = old_path.push(n as usize);
                assert(is_path(adj_w, path)) by {
                    assert forall|k: int| 0 <= k < path.len() implies (#[trigger] path[k])
                        < adj_w.len() by {
                        if k < old_path.len() {
                            assert(path[k] == old_path[k]);
                        }
                    }
                    assert forall|k: int|
                        0 <= k < path.len() - 1 implies adj_w[path[k] as int].contains(
                        #[trigger] path[k + 1],
                    ) by {
                        if k < old_path.len() - 1 {
                            assert(path[k] == old_path[k]);
                            assert(path[k + 1] == old_path[k + 1]);
                        } else {
                            assert(path[k] == anchor);
                            let at = v.nodes[anchor as int].neighbors.len() as int;
                            assert(adj_w[anchor as int][at] == n as usize);
                        }
                    }
                }
                assert(path[0] == old_path[0]);
                assert(path.last() == i);
            }
        }
    }
}

/// Inserting a vector of the index's dimension keeps the index well formed and
/// what it held, and keeps its graph connected, reciprocal and of the shape of a
/// tree if it was so.
pub proof fn lemma_inserted_sound<K: Fn(&Vec<u32>, &Vec<u32>) -> u32>(
    v: IndexView,
    kernel: &K,
    vector: Seq<u32>,
)
    requires
        index_wf(v),
        vector.len() == v.dimension,
        v.nodes.len() <= usize::MAX,
    ensures
        index_wf(inserted(v, kernel, vector)),
        connected(v) ==> connected(inserted(v, kernel, vector)),
        reciprocal(v.nodes) ==> reciprocal(inserted(v, kernel, vector).nodes),
        tree_shaped(v) ==> tree_shaped(inserted(v, kernel, vector)),
        grown_from(v, inserted(v, kernel, vector)),
        inserted(v, kernel, vector).nodes.len() == v.nodes.len() + 1,
{
    lemma_anchor_for(v, kernel, vector);
    let anchor = anchor_for(v, kernel, vector);
    lemma_appended_wf(v, vector, anchor);
    lemma_appended_grows(v, vector, anchor);
    if tree_shaped(v) {
        lemma_appended_tree(v, vector, anchor);
    }
    if connected(v) {
        lemma_appended_connected(v, vector, anchor);
    }
    if reciprocal(v.nodes) {
        lemma_appended_reciprocal(v, vector, anchor);
    }
}

/// Inserting the vectors of one chunk, each with the anchor found for it before
/// the chunk began, keeps the index well formed and what it held, and keeps its
/// graph connected, reciprocal and of the shape of a tree if it was so.
pub proof fn lemma_inserted_chunk_sound<K: Fn(&Vec<u32>, &Vec<u32>) -> u32>(
    before: IndexView,
    kernel: &K,
    chunk: Seq<Seq<u32>>,
)
    requires
        index_wf(before),
        all_of_dimension(chunk, before.dimension),
        before.nodes.len() + chunk.len() <= usize::MAX,
    ensures
        index_wf(inserted_chunk(before, kernel, chunk, before)),
        connected(before) ==> connected(inserted_chunk(before, kernel, chunk, before)),
        reciprocal(before.nodes) ==> reciprocal(
            inserted_chunk(before, kernel, chunk, before).nodes,
        ),
        tree_shaped(before) ==> tree_shaped(inserted_chunk(before, kernel, chunk, before)),
        grown_from(before, inserted_chunk(before, kernel, chunk, before)),
        inserted_chunk(before, kernel, chunk, before).nodes.len() == before.nodes.len()
            + chunk.len(),
    decreases chunk.len(),
{
    if chunk.len() > 0 {
        let front = chunk.drop_last();
        assert(all_of_dimension(front, before.dimension)) by {
            assert forall|j: int| 0 <= j < front.len() implies (#[trigger] front[j]).len()
                == before.dimension by {
                assert(front[j] == chunk[j]);
            }
        }
        lemma_inserted_chunk_sound(before, kernel, front);
        let mid = inserted_chunk(before, kernel, front, before);
        let last = chunk.last();
        assert(last == chunk[chunk.len() - 1]);
        let anchor = anchor_for(before, kernel, last);
        lemma_anchor_for(before, kernel, last);
        lemma_appended_wf(mid, last, anchor);
        lemma_appended_grows(mid, last, anchor);
        lemma_grown_twice(before, mid, appended(mid, last, anchor));
        if connected(before) {
            lemma_appended_connected(mid, last, anchor);
        }
        if reciprocal(before.nodes) {
            lemma_appended_reciprocal(mid, last, anchor);
        }
        if tree_shaped(before) {
            lemma_appended_tree(mid, last, anchor);
        }
    }
}

/// Inserting a batch keeps the index well formed and what it held, and keeps its
/// graph connected, reciprocal and of the shape of a tree if it was so.
pub proof fn lemma_inserted_batch_sound<K: Fn(&Vec<u32>, &Vec<u32>) -> u32>(
    v: IndexView,
    kernel: &K,
    vectors: Seq<Seq<u32>>,
)
    requires
        index_wf(v),
        all_of_dimension(vectors, v.dimension),
        v.nodes.len() + vectors.len() <= usize::MAX,
    ensures
        index_wf(inserted_batch(v, kernel, vectors)),
        connected(v) ==> connected(inserted_batch(v, kernel, vectors)),
        reciprocal(v.nodes) ==> reciprocal(inserted_batch(v, kernel, vectors).nodes),
        tree_shaped(v) ==> tree_shaped(inserted_batch(v, kernel, vectors)),
        grown_from(v, inserted_batch(v, kernel, vectors)),
        inserted_batch(v, kernel, vectors).nodes.len() == v.nodes.len() + vectors.len(),
    decreases vectors.len(),
{
    if vectors.len() > 0 {
        let m = first_chunk_len(vectors.len()) as int;
        let chunk = vectors.take(m);
        let rest = vectors.skip(m);
        assert(all_of_dimension(chunk, v.dimension)) by {
            assert forall|j: int| 0 <= j < chunk.len() implies (#[trigger] chunk[j]).len()
                == v.dimension by {
                assert(chunk[j] == vectors[j]);
            }
        }
        assert(all_of_dimension(rest, v.dimension)) by {
            assert forall|j: int| 0 <= j < rest.len() implies (#[trigger] rest[j]).len()
                == v.dimension by {
                assert(rest[j] == vectors[j + m]);
            }
        }
        lemma_inserted_chunk_sound(v, kernel, chunk);
        let mid = inserted_chunk(v, kernel, chunk, v);
        lemma_inserted_batch_sound(mid, kernel, rest);
        lemma_grown_twice(v, mid, inserted_batch(mid, kernel, rest));
    }
}

/// In a connected index a graph search whose width is at least the number of
/// nodes less one misses nothing: no node is strictly nearer to the query than
/// the node it reports. Where the distance it reports and the distance that heads
/// the result of an exact search are both numbers, they are the same.
pub proof fn lemma_wide_graph_search_is_exact<K: Fn(&Vec<u32>, &Vec<u32>) -> u32>(
    v: IndexView,
    kernel: &K,
    query: Seq<u32>,
    k: usize,
    ef: usize,
    scores: Seq<(usize, u32)>,
)
    requires
        index_wf(v),
        connected(v),
        ef + 1 >= v.nodes.len(),
        is_top_k(distances(kernel, query, v.nodes), k, scores),
        scores.len() > 0,
    ensures
        forall|i: int|
            0 <= i < v.nodes.len() ==> !nearer(
                #[trigger] distances(kernel, query, v.nodes)[i],
                graph_result(v, kernel, query, ef).1,
            ),
        !is_nan_word(scores[0].1) && !is_nan_word(graph_result(v, kernel, query, ef).1)
            ==> graph_result(v, kernel, query, ef).1 == scores[0].1,
{
    lemma_exact_search_not_beaten(v, kernel, query, k, ef, scores);
    lemma_wide_graph_search_misses_nothing(v, kernel, query, ef);
    let d = distances(kernel, query, v.nodes);
    let first = scores[0].0 as int;
    assert(!nearer(d[first], graph_result(v, kernel, query, ef).1));
}

/// In a connected index that holds a node, no node is strictly nearer to the query
/// than the node that a graph search reports whose width is at least the number
/// of nodes less one.
pub proof fn lemma_wide_graph_search_misses_nothing<K: Fn(&Vec<u32>, &Vec<u32>) -> u32>(
    v: IndexView,
    kernel: &K,
    query: Seq<u32>,
    ef: usize,
)
    requires
        index_wf(v),
        connected(v),
        ef + 1 >= v.nodes.len(),
    ensures
        forall|i: int|
            0 <= i < v.nodes.len() ==> !nearer(
                #[trigger] distances(kernel, query, v.nodes)[i],
                graph_result(v, kernel, query, ef).1,
            ),
{
    let d = distances(kernel, query, v.nodes);
    let adj = adjacency(v.nodes);
    lemma_index_graph(v, kernel, query);
    assert forall|i: int| 0 <= i < v.nodes.len() implies !nearer(
        #[trigger] d[i],
        graph_result(v, kernel, query, ef).1,
    ) by {
        assert(reached(v, i));
        let path = choose|path: Seq<usize>|
            #[trigger] is_path(adj, path) && v.entry_point == Some(path[0]) && path.last() == i;
        lemma_wide_beam_is_exact(adj, d, path[0], ef, path);
    }
}

/// In a connected index of at most [`INSERT_WIDTH`] nodes and one, the anchor
/// found for a vector is a true nearest node: no node is strictly nearer to the
/// vector than its anchor.
pub proof fn lemma_anchor_is_nearest<K: Fn(&Vec<u32>, &Vec<u32>) -> u32>(
    v: IndexView,
    kernel: &K,
    vector: Seq<u32>,
)
    requires
        index_wf(v),
        connected(v),
        v.nodes.len() <= INSERT_WIDTH + 1,
    ensures
        forall|i: int|
            0 <= i < v.nodes.len() ==> !nearer(
                #[trigger] distances(kernel, vector, v.nodes)[i],
                distances(kernel, vector, v.nodes)[anchor_for(v, kernel, vector) as int],
            ),
{
    lemma_wide_graph_search_misses_nothing(v, kernel, vector, INSERT_WIDTH);
}

} // verus!

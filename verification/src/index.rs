//! The index engine: the arena of nodes, the entry point, insertion and search.

use crate::error::IndexError;
use crate::graph::{
    beam_admit, beam_drain, beam_expand, beam_measure, beam_search, beam_start, beam_state_wf,
    beam_take, graph_wf, greedy_scan, greedy_walk, lemma_beam_admit, lemma_beam_drain,
    lemma_beam_round, lemma_beam_search, lemma_beam_start, lemma_greedy_scan, lemma_greedy_walk,
    within,
};
use crate::heap::{Candidate, Frontier};
use crate::metrics::{compute_distance, distance, distances, is_nearer, kernel_ok, nearer};
use crate::node::{adjacency, arena_view, nodes_wf, Node, NodeView};
use crate::ranking::{
    after_all, is_stable_sort, is_top_k, kept, listed, ranks_before, sort_by_distance,
};
use rayon::iter::{IntoParallelRefIterator, ParallelIterator};
use vstd::prelude::*;

verus! {

/// The mathematical value of a [`VectorIndex`].
pub ghost struct IndexView {
    /// The nodes in the order in which they were inserted.
    pub nodes: Seq<NodeView>,
    /// The number of components of every stored vector.
    pub dimension: usize,
    /// The node at which graph searches begin; `None` while the index is empty.
    pub entry_point: Option<usize>,
}

/// Every vector has the index's dimension, every edge ends inside the arena, and
/// there is an entry point, inside the arena, exactly when the arena is not empty.
pub open spec fn index_wf(v: IndexView) -> bool {
    &&& nodes_wf(v.nodes, v.dimension)
    &&& match v.entry_point {
        None => v.nodes.len() == 0,
        Some(e) => e < v.nodes.len(),
    }
}

/// An append-only arena of nodes joined into a proximity graph.
///
/// A node's position in the arena is its identity for as long as the index lives.
pub struct VectorIndex {
    arena: Vec<Node>,
    dimension: usize,
    entry_point: Option<usize>,
}

impl View for VectorIndex {
    type V = IndexView;

    closed spec fn view(&self) -> IndexView {
        IndexView {
            nodes: arena_view(self.arena@),
            dimension: self.dimension,
            entry_point: self.entry_point,
        }
    }
}

/// The graph of a well-formed index, with any table of distances to its nodes,
/// is one that the traversals accept.
pub proof fn lemma_index_graph<K: Fn(&Vec<u32>, &Vec<u32>) -> u32>(
    v: IndexView,
    kernel: &K,
    query: Seq<u32>,
)
    requires
        index_wf(v),
    ensures
        graph_wf(adjacency(v.nodes), distances(kernel, query, v.nodes)),
{
    let adj = adjacency(v.nodes);
    assert forall|i: int, j: int| 0 <= i < adj.len() && 0 <= j < adj[i].len() implies (
    #[trigger] adj[i][j]) < adj.len() by {
        assert(v.nodes[i].neighbors[j] < v.nodes.len());
    }
}

/// The width of the beam search that looks for the anchor of a new vector.
pub const INSERT_WIDTH: usize = 10;

/// The number of vectors whose anchors a batch insertion looks for at once.
pub const CHUNK_SIZE: usize = 1000;

/// The contents of the vectors of a batch, position by position.
pub open spec fn vector_views(vectors: Seq<Vec<u32>>) -> Seq<Seq<u32>> {
    Seq::new(vectors.len(), |i: int| vectors[i]@)
}

/// The node to which a new vector is joined, as found in the index `v`: what a beam
/// search of width [`INSERT_WIDTH`] from the entry point returns for it, and 0
/// while `v` has no entry point.
pub open spec fn anchor_for<K: Fn(&Vec<u32>, &Vec<u32>) -> u32>(
    v: IndexView,
    kernel: &K,
    vector: Seq<u32>,
) -> usize {
    match v.entry_point {
        Some(e) => beam_search(
            adjacency(v.nodes),
            distances(kernel, vector, v.nodes),
            e,
            INSERT_WIDTH,
        ),
        None => 0,
    }
}

/// The index after `vector` was appended with `anchor` as its anchor. In an empty
/// index the new node has no edge and becomes the entry point. Otherwise it gets
/// one edge, to the anchor, and the anchor gets the edge back, behind its others.
pub open spec fn appended(v: IndexView, vector: Seq<u32>, anchor: usize) -> IndexView {
    let id = v.nodes.len() as usize;
    if v.nodes.len() == 0 {
        IndexView {
            nodes: seq![NodeView { vector, neighbors: Seq::empty() }],
            entry_point: Some(id),
            ..v
        }
    } else {
        let linked = NodeView {
            neighbors: v.nodes[anchor as int].neighbors.push(id),
            ..v.nodes[anchor as int]
        };
        IndexView {
            nodes: v.nodes.update(anchor as int, linked).push(
                NodeView { vector, neighbors: seq![anchor] },
            ),
            ..v
        }
    }
}

/// The index after `vector` was inserted alone.
pub open spec fn inserted<K: Fn(&Vec<u32>, &Vec<u32>) -> u32>(
    v: IndexView,
    kernel: &K,
    vector: Seq<u32>,
) -> IndexView {
    appended(v, vector, anchor_for(v, kernel, vector))
}

/// The index after the vectors of one chunk were appended to `v` in order, each
/// with the anchor that was found for it in `before`, the index as it was when
/// the chunk began.
pub open spec fn inserted_chunk<K: Fn(&Vec<u32>, &Vec<u32>) -> u32>(
    v: IndexView,
    kernel: &K,
    chunk: Seq<Seq<u32>>,
    before: IndexView,
) -> IndexView
    decreases chunk.len(),
{
    if chunk.len() == 0 {
        v
    } else {
        appended(
            inserted_chunk(v, kernel, chunk.drop_last(), before),
            chunk.last(),
            anchor_for(before, kernel, chunk.last()),
        )
    }
}

/// The number of vectors in the first chunk of a batch of `n` vectors.
pub open spec fn first_chunk_len(n: nat) -> nat {
    if n > CHUNK_SIZE {
        CHUNK_SIZE as nat
    } else {
        n
    }
}

/// The index after a batch was inserted: chunk after chunk of at most
/// [`CHUNK_SIZE`] vectors, each chunk against the index as the chunk before left it.
pub open spec fn inserted_batch<K: Fn(&Vec<u32>, &Vec<u32>) -> u32>(
    v: IndexView,
    kernel: &K,
    vectors: Seq<Seq<u32>>,
) -> IndexView
    decreases vectors.len(),
{
    if vectors.len() == 0 {
        v
    } else {
        let m = first_chunk_len(vectors.len()) as int;
        inserted_batch(
            inserted_chunk(v, kernel, vectors.take(m), v),
            kernel,
            vectors.skip(m),
        )
    }
}

/// The distance word that an approximate search reports for an empty index: the
/// bits of the largest finite number of IEEE 754 single precision.
pub const EMPTY_DISTANCE: u32 = 0x7F7F_FFFF;

/// What an approximate search of width `ef` reports: for an empty index node 0
/// with [`EMPTY_DISTANCE`], and otherwise the node that a beam search from the
/// entry point returns, with its distance.
pub open spec fn graph_result<K: Fn(&Vec<u32>, &Vec<u32>) -> u32>(
    v: IndexView,
    kernel: &K,
    query: Seq<u32>,
    ef: usize,
) -> (usize, u32) {
    match v.entry_point {
        None => (0, EMPTY_DISTANCE),
        Some(e) => {
            let d = distances(kernel, query, v.nodes);
            let best = beam_search(adjacency(v.nodes), d, e, ef);
            (best, d[best as int])
        },
    }
}

/// The index that the given parts make up, if they make up one.
pub open spec fn assembled(
    nodes: Seq<NodeView>,
    dimension: usize,
    entry_point: Option<usize>,
) -> Option<IndexView> {
    let v = IndexView { nodes, dimension, entry_point };
    if index_wf(v) {
        Some(v)
    } else {
        None
    }
}

/// Whether every vector of the batch has `dimension` components.
pub open spec fn all_of_dimension(vectors: Seq<Seq<u32>>, dimension: usize) -> bool {
    forall|i: int| 0 <= i < vectors.len() ==> (#[trigger] vectors[i]).len() == dimension
}

/// `i` is the position of the first vector of the batch that has not `dimension`
/// components.
pub open spec fn first_mismatch(vectors: Seq<Seq<u32>>, dimension: usize, i: int) -> bool {
    &&& 0 <= i < vectors.len()
    &&& vectors[i].len() != dimension
    &&& all_of_dimension(vectors.take(i), dimension)
}

/// Appending keeps an index well formed, if the vector has its dimension and the
/// anchor is one of its nodes.
pub proof fn lemma_appended_wf(v: IndexView, vector: Seq<u32>, anchor: usize)
    requires
        index_wf(v),
        vector.len() == v.dimension,
        v.nodes.len() > 0 ==> anchor < v.nodes.len(),
        v.nodes.len() <= usize::MAX,
    ensures
        index_wf(appended(v, vector, anchor)),
        appended(v, vector, anchor).nodes.len() == v.nodes.len() + 1,
        appended(v, vector, anchor).dimension == v.dimension,
        appended(v, vector, anchor).entry_point.is_some(),
        v.entry_point.is_some() ==> appended(v, vector, anchor).entry_point == v.entry_point,
{
    let w = appended(v, vector, anchor);
    assert forall|i: int| 0 <= i < w.nodes.len() implies {
        &&& (#[trigger] w.nodes[i]).vector.len() == w.dimension
        &&& forall|j: int|
            0 <= j < w.nodes[i].neighbors.len() ==> (#[trigger] w.nodes[i].neighbors[j])
                < w.nodes.len()
    } by {
        if i < v.nodes.len() {
            assert(v.nodes[i].vector.len() == v.dimension);
            assert forall|j: int| 0 <= j < w.nodes[i].neighbors.len() implies (
            #[trigger] w.nodes[i].neighbors[j]) < w.nodes.len() by {
                if j < v.nodes[i].neighbors.len() {
                    assert(v.nodes[i].neighbors[j] < v.nodes.len());
                }
            }
        }
    }
}

/// The anchor found for a vector of the index's dimension is one of its nodes.
pub proof fn lemma_anchor_for<K: Fn(&Vec<u32>, &Vec<u32>) -> u32>(
    v: IndexView,
    kernel: &K,
    vector: Seq<u32>,
)
    requires
        index_wf(v),
    ensures
        v.nodes.len() > 0 ==> anchor_for(v, kernel, vector) < v.nodes.len(),
        v.nodes.len() == 0 ==> anchor_for(v, kernel, vector) == 0,
{
    if let Some(e) = v.entry_point {
        lemma_index_graph(v, kernel, vector);
        lemma_beam_search(adjacency(v.nodes), distances(kernel, vector, v.nodes), e, INSERT_WIDTH);
    }
}

impl VectorIndex {
    /// Whether the index is well formed; see [`index_wf`].
    pub open spec fn wf(&self) -> bool {
        index_wf(self@)
    }

    /// An empty index for vectors of `dim` components.
    pub fn new(dim: usize) -> (index: Self)
        ensures
            index.wf(),
            index@ == (IndexView { nodes: Seq::empty(), dimension: dim, entry_point: None }),
    {
        let index = VectorIndex { arena: Vec::new(), dimension: dim, entry_point: None };
        assert(index@.nodes =~= Seq::empty());
        index
    }

    /// Greedy descent over the graph, from `start_node`.
    ///
    /// The neighbours of the current node are compared in the order of its adjacency
    /// list, and the descent moves on to the nearest of them if that one is strictly
    /// nearer than the current node; of several equally near, to the first. It stops
    /// at the first node that has no strictly nearer neighbour, which need not be
    /// the nearest node of the graph. "Strictly nearer" is [`nearer`]: a distance
    /// that is not a number is nearer than none, and none is nearer than it.
    pub fn search_greedy<K: Fn(&Vec<u32>, &Vec<u32>) -> u32>(
        &self,
        query: &Vec<u32>,
        start_node: usize,
        kernel: &K,
    ) -> (stop: usize)
        requires
            self.wf(),
            kernel_ok(kernel),
            query@.len() == self@.dimension,
            start_node < self@.nodes.len(),
        ensures
            stop == greedy_walk(
                adjacency(self@.nodes),
                distances(kernel, query@, self@.nodes),
                start_node,
            ),
            stop < self@.nodes.len(),
            distance(kernel, query@, self@.nodes[stop as int].vector) <= distance(
                kernel,
                query@,
                self@.nodes[start_node as int].vector,
            ),
            forall|j: int|
                0 <= j < self@.nodes[stop as int].neighbors.len() ==> !nearer(
                    distances(kernel, query@, self@.nodes)[(
                    #[trigger] self@.nodes[stop as int].neighbors[j]) as int],
                    distances(kernel, query@, self@.nodes)[stop as int],
                ),
    {
        let ghost adj = adjacency(self@.nodes);
        let ghost d = distances(kernel, query@, self@.nodes);
        proof {
            lemma_index_graph(self@, kernel, query@);
            lemma_greedy_walk(adj, d, start_node);
        }
        let mut current_node = start_node;
        assert(self@.nodes[start_node as int].vector.len() == self@.dimension);
        let mut current_dist = compute_distance(kernel, query, &self.arena[current_node].vector);
        loop
            invariant
                self.wf(),
                kernel_ok(kernel),
                query@.len() == self@.dimension,
                adj == adjacency(self@.nodes),
                d == distances(kernel, query@, self@.nodes),
                graph_wf(adj, d),
                current_node < adj.len(),
                current_dist == d[current_node as int],
                greedy_walk(adj, d, current_node) == greedy_walk(adj, d, start_node),
            ensures
                current_node == greedy_walk(adj, d, start_node),
            decreases current_dist,
        {
            let mut changed = false;
            let ghost base = current_node;
            let nbrs = &self.arena[current_node].neighbors;
            proof {
                assert(within(nbrs@, d.len())) by {
                    assert forall|j: int| 0 <= j < nbrs@.len() implies (#[trigger] nbrs@[j])
                        < d.len() by {
                        assert(adj[base as int][j] < adj.len());
                    }
                }
            }
            let mut j: usize = 0;
            while j < nbrs.len()
                invariant
                    self.wf(),
                    kernel_ok(kernel),
                    query@.len() == self@.dimension,
                    adj == adjacency(self@.nodes),
                    d == distances(kernel, query@, self@.nodes),
                    graph_wf(adj, d),
                    base < adj.len(),
                    nbrs@ == adj[base as int],
                    within(nbrs@, d.len()),
                    j <= nbrs@.len(),
                    current_node == greedy_scan(d, base, nbrs@.take(j as int)),
                    current_node < adj.len(),
                    current_dist == d[current_node as int],
                    changed <==> current_node != base,
                decreases nbrs@.len() - j,
            {
                let neighbor_idx = nbrs[j];
                proof {
                    assert(nbrs@.take(j as int + 1).drop_last() =~= nbrs@.take(j as int));
                    assert(nbrs@.take(j as int + 1).last() == neighbor_idx);
                    assert(nbrs@[j as int] < d.len());
                    assert(within(nbrs@.take(j as int), d.len()));
                    lemma_greedy_scan(d, base, nbrs@.take(j as int));
                }
                assert(self@.nodes[neighbor_idx as int].vector.len() == self@.dimension);
                let dist = compute_distance(kernel, query, &self.arena[neighbor_idx].vector);
                if is_nearer(dist, current_dist) {
                    current_dist = dist;
                    current_node = neighbor_idx;
                    changed = true;
                }
                j += 1;
            }
            proof {
                assert(nbrs@.take(nbrs@.len() as int) =~= nbrs@);
                lemma_greedy_scan(d, base, nbrs@);
            }
            if !changed {
                break ;
            }
        }
        current_node
    }

    /// Beam search of width `ef` over the graph, from `start_node`.
    ///
    /// The frontier hands out the nearest waiting candidate first. A neighbour that
    /// was not met before joins the frontier if it is strictly nearer than the
    /// nearest node so far, whatever the frontier holds, and otherwise only while
    /// fewer than `ef` candidates wait; it is never put in the place of a worse one.
    /// The search ends when no candidate waits, and returns the nearest node it met.
    /// "Strictly nearer" is [`nearer`]: a distance that is not a number improves on
    /// none, and none improves on it.
    pub fn search_beam<K: Fn(&Vec<u32>, &Vec<u32>) -> u32>(
        &self,
        query: &Vec<u32>,
        start_node: usize,
        ef: usize,
        kernel: &K,
    ) -> (nearest: usize)
        requires
            self.wf(),
            kernel_ok(kernel),
            query@.len() == self@.dimension,
            start_node < self@.nodes.len(),
        ensures
            nearest == beam_search(
                adjacency(self@.nodes),
                distances(kernel, query@, self@.nodes),
                start_node,
                ef,
            ),
            nearest < self@.nodes.len(),
            distance(kernel, query@, self@.nodes[nearest as int].vector) <= distance(
                kernel,
                query@,
                self@.nodes[start_node as int].vector,
            ),
    {
        let ghost adj = adjacency(self@.nodes);
        let ghost d = distances(kernel, query@, self@.nodes);
        let n = self.arena.len();
        assert(self@.nodes[start_node as int].vector.len() == self@.dimension);
        let start_dist = compute_distance(kernel, query, &self.arena[start_node].vector);
        let mut candidates = Frontier::new();
        candidates.push(Candidate { distance: start_dist, index: start_node });
        let mut visited: Vec<bool> = vec![false; n];
        visited.set(start_node, true);
        let mut nearest_idx = start_node;
        let mut nearest_dist = start_dist;
        let ghost mut st = beam_start(d, start_node);
        proof {
            lemma_index_graph(self@, kernel, query@);
            lemma_beam_start(adj, d, start_node);
            lemma_beam_drain(adj, d, ef, st);
            assert(st.visited =~= visited@);
            assert(st.frontier =~= candidates@);
        }
        loop
            invariant
                self.wf(),
                kernel_ok(kernel),
                query@.len() == self@.dimension,
                n == self.arena@.len(),
                adj == adjacency(self@.nodes),
                d == distances(kernel, query@, self@.nodes),
                beam_state_wf(adj, d, st),
                st.frontier == candidates@,
                st.visited == visited@,
                st.nearest == nearest_idx,
                st.nearest_distance == nearest_dist,
                beam_drain(adj, d, ef, st) == beam_drain(adj, d, ef, beam_start(d, start_node)),
            ensures
                candidates@.len() == 0,
            decreases beam_measure(st),
        {
            let popped = candidates.pop();
            match popped {
                None => {
                    break ;
                },
                Some(current) => {
                    let ghost base = beam_take(st);
                    let ghost before = st;
                    proof {
                        lemma_beam_round(adj, d, ef, st);
                        st = base;
                    }
                    let nbrs = &self.arena[current.index].neighbors;
                    let mut j: usize = 0;
                    while j < nbrs.len()
                        invariant
                            self.wf(),
                            kernel_ok(kernel),
                            query@.len() == self@.dimension,
                            n == self.arena@.len(),
                            adj == adjacency(self@.nodes),
                            d == distances(kernel, query@, self@.nodes),
                            current.index < n,
                            nbrs@ == adj[current.index as int],
                            j <= nbrs@.len(),
                            beam_state_wf(adj, d, base),
                            beam_state_wf(adj, d, st),
                            st == beam_expand(d, ef, base, nbrs@.take(j as int)),
                            st.frontier == candidates@,
                            st.visited == visited@,
                            st.nearest == nearest_idx,
                            st.nearest_distance == nearest_dist,
                        decreases nbrs@.len() - j,
                    {
                        let nb = nbrs[j];
                        proof {
                            assert(nbrs@.take(j as int + 1).drop_last() =~= nbrs@.take(j as int));
                            assert(nbrs@.take(j as int + 1).last() == nb);
                            assert(adj[current.index as int][j as int] < adj.len());
                            lemma_beam_admit(adj, d, ef, st, nb);
                        }
                        if !visited[nb] {
                            visited.set(nb, true);
                            assert(self@.nodes[nb as int].vector.len() == self@.dimension);
                            let dist = compute_distance(kernel, query, &self.arena[nb].vector);
                            if is_nearer(dist, nearest_dist) {
                                nearest_dist = dist;
                                nearest_idx = nb;
                                candidates.push(Candidate { distance: dist, index: nb });
                            } else if candidates.len() < ef {
                                candidates.push(Candidate { distance: dist, index: nb });
                            }
                        }
                        proof {
                            st = beam_admit(d, ef, st, nb);
                        }
                        j += 1;
                    }
                    proof {
                        assert(nbrs@.take(nbrs@.len() as int) =~= nbrs@);
                        assert(beam_measure(st) < beam_measure(before));
                    }
                },
            }
        }
        nearest_idx
    }

    /// Appends `vector` as a new node, joined to `anchor` unless the index is empty.
    fn append(&mut self, vector: Vec<u32>, anchor: usize)
        requires
            old(self).wf(),
            vector@.len() == old(self)@.dimension,
            old(self)@.nodes.len() > 0 ==> anchor < old(self)@.nodes.len(),
        ensures
            final(self).wf(),
            final(self)@ == appended(old(self)@, vector@, anchor),
    {
        proof {
            assert(self@.nodes.len() == self.arena.len());
            lemma_appended_wf(self@, vector@, anchor);
        }
        let new_idx = self.arena.len();
        let mut neighbors: Vec<usize> = Vec::new();
        if new_idx == 0 {
            self.entry_point = Some(new_idx);
        } else {
            neighbors.push(anchor);
            self.arena[anchor].neighbors.push(new_idx);
        }
        self.arena.push(Node { vector, neighbors });
        assert(self@.nodes =~= appended(old(self)@, vector@, anchor).nodes);
    }

    /// Inserts one vector.
    ///
    /// A vector whose length is not the index's dimension is refused and the index
    /// stays as it was. The first vector becomes the entry point. Every later one
    /// is joined to the node that a beam search of width [`INSERT_WIDTH`] from the
    /// entry point returns for it, by an edge in each direction.
    pub fn add<K: Fn(&Vec<u32>, &Vec<u32>) -> u32>(&mut self, vector: Vec<u32>, kernel: &K) -> (r:
        Result<(), IndexError>)
        requires
            old(self).wf(),
            kernel_ok(kernel),
        ensures
            final(self).wf(),
            match r {
                Ok(_) => {
                    &&& vector@.len() == old(self)@.dimension
                    &&& final(self)@ == inserted(old(self)@, kernel, vector@)
                    &&& final(self)@.nodes.len() == old(self)@.nodes.len() + 1
                    &&& final(self)@.nodes.last().vector == vector@
                },
                Err(e) => {
                    &&& vector@.len() != old(self)@.dimension
                    &&& e == (IndexError::DimensionMismatch {
                        expected: old(self)@.dimension,
                        got: vector.len(),
                    })
                    &&& final(self)@ == old(self)@
                },
            },
    {
        if vector.len() != self.dimension {
            return Err(
                IndexError::DimensionMismatch { expected: self.dimension, got: vector.len() },
            );
        }
        let anchor = self.find_anchor(&vector, kernel);
        self.append(vector, anchor);
        Ok(())
    }

    /// Looks for the node to which `vector` would be joined if it were inserted now.
    pub fn find_anchor<K: Fn(&Vec<u32>, &Vec<u32>) -> u32>(
        &self,
        vector: &Vec<u32>,
        kernel: &K,
    ) -> (anchor: usize)
        requires
            self.wf(),
            kernel_ok(kernel),
            vector@.len() == self@.dimension,
        ensures
            anchor == anchor_for(self@, kernel, vector@),
            self@.nodes.len() > 0 ==> anchor < self@.nodes.len(),
            self@.nodes.len() == 0 ==> anchor == 0,
    {
        match self.entry_point {
            Some(entry_idx) => self.search_beam(vector, entry_idx, INSERT_WIDTH, kernel),
            None => 0,
        }
    }

    /// The anchors of the vectors `vectors[lo..hi]`, found side by side.
    ///
    /// Trusted: the body is rayon's `par_iter().map(..).collect()` on that slice,
    /// with [`VectorIndex::find_anchor`] as the mapped function. The contract claims
    /// that the result holds one anchor for each vector, in the order of the
    /// vectors, each being what `find_anchor` returns for that vector. Rayon's
    /// source shows it: the parallel iterator of a slice knows its length, `map`
    /// applies the function to each item, and `collect` into a `Vec` then writes
    /// the result for the item at a position to that position (`special_extend`).
    /// The index is only read while the anchors are found.
    #[verifier::external_body]
    fn parallel_anchors<K: Fn(&Vec<u32>, &Vec<u32>) -> u32 + Sync>(
        &self,
        vectors: &Vec<Vec<u32>>,
        lo: usize,
        hi: usize,
        kernel: &K,
    ) -> (anchors: Vec<usize>)
        requires
            self.wf(),
            kernel_ok(kernel),
            lo <= hi <= vectors@.len(),
            forall|i: int| lo <= i < hi ==> (#[trigger] vectors@[i])@.len() == self@.dimension,
        ensures
            anchors@.len() == hi - lo,
            forall|i: int|
                0 <= i < hi - lo ==> (#[trigger] anchors@[i]) == anchor_for(
                    self@,
                    kernel,
                    vectors@[lo + i]@,
                ),
    {
        vectors[lo..hi].par_iter().map(|vector| self.find_anchor(vector, kernel)).collect()
    }

    /// Inserts a batch of vectors, chunk after chunk of at most [`CHUNK_SIZE`].
    ///
    /// If any vector of the batch has not the index's dimension, the batch is
    /// refused as a whole, with the first such vector named in the error, and the
    /// index stays as it was. Otherwise the anchors of all vectors of a chunk are
    /// found first, side by side, in the index as the chunk before left it; then
    /// the vectors are appended in their order. So a vector is never joined to
    /// another of its own chunk, except to the one that became the entry point of
    /// an index that was empty.
    pub fn add_parallel<K: Fn(&Vec<u32>, &Vec<u32>) -> u32 + Sync>(
        &mut self,
        vectors: Vec<Vec<u32>>,
        kernel: &K,
    ) -> (r: Result<(), IndexError>)
        requires
            old(self).wf(),
            kernel_ok(kernel),
        ensures
            final(self).wf(),
            match r {
                Ok(_) => {
                    &&& all_of_dimension(vector_views(vectors@), old(self)@.dimension)
                    &&& final(self)@ == inserted_batch(
                        old(self)@,
                        kernel,
                        vector_views(vectors@),
                    )
                    &&& final(self)@.nodes.len() == old(self)@.nodes.len() + vectors@.len()
                },
                Err(e) => {
                    &&& final(self)@ == old(self)@
                    &&& exists|i: int|
                        first_mismatch(vector_views(vectors@), old(self)@.dimension, i) && e == (
                        IndexError::DimensionMismatch {
                            expected: old(self)@.dimension,
                            got: (#[trigger] vectors@[i]).len(),
                        })
                },
            },
    {
        let ghost all = vector_views(vectors@);
        let total = vectors.len();
        let mut c: usize = 0;
        while c < total
            invariant
                total == vectors@.len(),
                all == vector_views(vectors@),
                c <= total,
                all_of_dimension(all.take(c as int), self.dimension),
                *self == *old(self),
                self.wf(),
            decreases total - c,
        {
            if vectors[c].len() != self.dimension {
                proof {
                    assert(first_mismatch(all, self@.dimension, c as int));
                }
                return Err(
                    IndexError::DimensionMismatch {
                        expected: self.dimension,
                        got: vectors[c].len(),
                    },
                );
            }
            proof {
                assert forall|i: int| 0 <= i < all.take(c as int + 1).len() implies (
                #[trigger] all.take(c as int + 1)[i]).len() == self.dimension by {
                    if i < c {
                        assert(all.take(c as int)[i] == all[i]);
                    }
                }
            }
            c += 1;
        }
        proof {
            assert(all.take(total as int) =~= all);
            assert(all.skip(0) =~= all);
        }
        let mut lo: usize = 0;
        while lo < total
            invariant
                total == vectors@.len(),
                all == vector_views(vectors@),
                lo <= total,
                all_of_dimension(all, self@.dimension),
                self.wf(),
                kernel_ok(kernel),
                self@.dimension == old(self)@.dimension,
                self@.nodes.len() == old(self)@.nodes.len() + lo,
                inserted_batch(self@, kernel, all.skip(lo as int)) == inserted_batch(
                    old(self)@,
                    kernel,
                    all,
                ),
            decreases total - lo,
        {
            let hi = if total - lo > CHUNK_SIZE {
                lo + CHUNK_SIZE
            } else {
                total
            };
            proof {
                assert forall|i: int| lo <= i < hi implies (#[trigger] vectors@[i])@.len()
                    == self@.dimension by {
                    assert(all[i].len() == self@.dimension);
                }
            }
            let anchors = self.parallel_anchors(&vectors, lo, hi, kernel);
            let ghost before = self@;
            let ghost rest = all.skip(lo as int);
            let ghost chunk = rest.take(hi - lo);
            proof {
                assert(hi - lo == first_chunk_len(rest.len()));
            }
            let mut i: usize = lo;
            while i < hi
                invariant
                    total == vectors@.len(),
                    all == vector_views(vectors@),
                    lo <= i <= hi <= total,
                    all_of_dimension(all, self@.dimension),
                    self.wf(),
                    index_wf(before),
                    kernel_ok(kernel),
                    self@.dimension == old(self)@.dimension,
                    anchors@.len() == hi - lo,
                    forall|k: int|
                        0 <= k < hi - lo ==> (#[trigger] anchors@[k]) == anchor_for(
                            before,
                            kernel,
                            vectors@[lo + k]@,
                        ),
                    rest == all.skip(lo as int),
                    chunk == rest.take(hi - lo),
                    self@.nodes.len() == before.nodes.len() + (i - lo),
                    self@ == inserted_chunk(before, kernel, chunk.take(i - lo), before),
                decreases hi - i,
            {
                let vector = vectors[i].clone();
                let anchor = anchors[i - lo];
                proof {
                    assert(vector@ =~= vectors@[i as int]@);
                    assert(all[i as int] == vectors@[i as int]@);
                    assert(all[i as int].len() == self@.dimension);
                    lemma_anchor_for(before, kernel, vectors@[i as int]@);
                    assert(anchors@[i - lo] == anchor_for(
                        before,
                        kernel,
                        vectors@[lo + (i - lo)]@,
                    ));
                    let done = chunk.take(i - lo + 1);
                    assert(done.drop_last() =~= chunk.take(i - lo));
                    assert(done.last() == all[i as int]);
                }
                self.append(vector, anchor);
                i += 1;
            }
            proof {
                assert(chunk.take(hi - lo) =~= chunk);
                assert(rest.skip(hi - lo) =~= all.skip(hi as int));
            }
            lo = hi;
        }
        proof {
            assert(all.skip(total as int).len() == 0);
        }
        Ok(())
    }

    /// Exact search: the `k` nearest nodes with their distances, nearest first, and
    /// of equally near nodes the earlier one first; all nodes if there are fewer
    /// than `k`. A query whose length is not the index's dimension is refused.
    ///
    /// The nodes are ranked by the size of their distance words. A distance that
    /// is not a number has a word above that of every number from 0 upward, and
    /// so ranks behind all of them; nothing fails on it.
    pub fn search<K: Fn(&Vec<u32>, &Vec<u32>) -> u32>(
        &self,
        query: Vec<u32>,
        k: usize,
        kernel: &K,
    ) -> (r: Result<Vec<(usize, u32)>, IndexError>)
        requires
            self.wf(),
            kernel_ok(kernel),
        ensures
            match r {
                Ok(scores) => {
                    &&& query@.len() == self@.dimension
                    &&& is_top_k(distances(kernel, query@, self@.nodes), k, scores@)
                },
                Err(e) => {
                    &&& query@.len() != self@.dimension
                    &&& e == (IndexError::DimensionMismatch {
                        expected: self@.dimension,
                        got: query.len(),
                    })
                },
            },
    {
        if query.len() != self.dimension {
            return Err(
                IndexError::DimensionMismatch { expected: self.dimension, got: query.len() },
            );
        }
        let ghost d = distances(kernel, query@, self@.nodes);
        let n = self.arena.len();
        let mut scores: Vec<(usize, u32)> = Vec::new();
        let mut index: usize = 0;
        while index < n
            invariant
                self.wf(),
                kernel_ok(kernel),
                query@.len() == self@.dimension,
                n == self.arena@.len(),
                d == distances(kernel, query@, self@.nodes),
                index <= n,
                scores@.len() == index,
                forall|a: int| 0 <= a < index ==> (#[trigger] scores@[a]) == (a as usize, d[a]),
            decreases n - index,
        {
            assert(self@.nodes[index as int].vector.len() == self@.dimension);
            let dist = compute_distance(kernel, &query, &self.arena[index].vector);
            scores.push((index, dist));
            index += 1;
        }
        let ghost unsorted = scores@;
        sort_by_distance(&mut scores);
        let ghost sorted = scores@;
        let ghost origin = choose|origin: Seq<int>| is_stable_sort(unsorted, sorted, origin);
        scores.truncate(k);
        proof {
            let kept_len = scores@.len() as int;
            assert forall|a: int| 0 <= a < sorted.len() implies (#[trigger] sorted[a]).0
                == origin[a] && sorted[a].1 == d[origin[a]] by {
                assert(sorted[a] == unsorted[origin[a]]);
            }
            assert forall|a: int, b: int| 0 <= a < b < kept_len implies ranks_before(
                d,
                (#[trigger] scores@[a]).0 as int,
                (#[trigger] scores@[b]).0 as int,
            ) by {
                assert(scores@[a] == sorted[a] && scores@[b] == sorted[b]);
            }
            assert forall|i: int| 0 <= i < d.len() implies #[trigger] listed(scores@, i)
                || after_all(d, scores@, i) by {
                assert(kept(origin, i));
                let p = choose|p: int| 0 <= p < origin.len() && origin[p] == i;
                if p < kept_len {
                    assert(scores@[p] == sorted[p]);
                    assert(scores@[p].0 == i);
                } else {
                    assert forall|a: int| 0 <= a < kept_len implies ranks_before(
                        d,
                        (#[trigger] scores@[a]).0 as int,
                        i,
                    ) by {
                        assert(scores@[a] == sorted[a]);
                        assert(sorted[a].1 < sorted[p].1 || (sorted[a].1 == sorted[p].1
                            && origin[a] < origin[p]));
                    }
                }
            }
        }
        Ok(scores)
    }

    /// Approximate search: the node that a beam search of width `ef` from the entry
    /// point returns, with its distance. An empty index answers every query with
    /// node 0 and [`EMPTY_DISTANCE`], so a caller tells by the distance, not by
    /// the node, that nothing was found.
    pub fn search_graph<K: Fn(&Vec<u32>, &Vec<u32>) -> u32>(
        &self,
        query: Vec<u32>,
        ef: usize,
        kernel: &K,
    ) -> (r: (usize, u32))
        requires
            self.wf(),
            kernel_ok(kernel),
            self@.entry_point.is_some() ==> query@.len() == self@.dimension,
        ensures
            r == graph_result(self@, kernel, query@, ef),
            self@.entry_point.is_some() ==> r.0 < self@.nodes.len(),
    {
        match self.entry_point {
            Some(entry_point) => {
                let best_idx = self.search_beam(&query, entry_point, ef, kernel);
                assert(self@.nodes[best_idx as int].vector.len() == self@.dimension);
                let dist = compute_distance(kernel, &query, &self.arena[best_idx].vector);
                (best_idx, dist)
            },
            None => (0, EMPTY_DISTANCE),
        }
    }

    /// The number of components of every stored vector.
    pub fn dimension(&self) -> (dimension: usize)
        ensures
            dimension == self@.dimension,
    {
        self.dimension
    }

    /// The node at which graph searches begin, if the index holds a node.
    pub fn entry_point(&self) -> (entry_point: Option<usize>)
        ensures
            entry_point == self@.entry_point,
    {
        self.entry_point
    }

    /// The number of stored nodes.
    pub fn len(&self) -> (len: usize)
        ensures
            len == self@.nodes.len(),
    {
        self.arena.len()
    }

    /// The nodes in the order in which they were inserted.
    pub fn arena(&self) -> (arena: &Vec<Node>)
        ensures
            arena_view(arena@) == self@.nodes,
    {
        &self.arena
    }

    /// Takes the index apart into its arena, its dimension and its entry point.
    pub fn into_parts(self) -> (parts: (Vec<Node>, usize, Option<usize>))
        ensures
            arena_view(parts.0@) == self@.nodes,
            parts.1 == self@.dimension,
            parts.2 == self@.entry_point,
    {
        (self.arena, self.dimension, self.entry_point)
    }

    /// Puts an index together from an arena, a dimension and an entry point, as
    /// [`VectorIndex::into_parts`] hands them out.
    ///
    /// The parts are refused as [`IndexError::Malformed`] unless they make up a
    /// well-formed index: every vector of length `dimension`, every edge and the
    /// entry point inside the arena, and an entry point exactly when the arena
    /// holds a node.
    pub fn from_parts(arena: Vec<Node>, dimension: usize, entry_point: Option<usize>) -> (r:
        Result<Self, IndexError>)
        ensures
            match r {
                Ok(index) => {
                    &&& index.wf()
                    &&& assembled(arena_view(arena@), dimension, entry_point) == Some(index@)
                },
                Err(e) => {
                    &&& e == IndexError::Malformed
                    &&& assembled(arena_view(arena@), dimension, entry_point).is_none()
                },
            },
    {
        let ghost nodes = arena_view(arena@);
        let n = arena.len();
        let entry_ok = match entry_point {
            None => n == 0,
            Some(e) => e < n,
        };
        if !entry_ok {
            return Err(IndexError::Malformed);
        }
        let mut i: usize = 0;
        while i < n
            invariant
                n == arena@.len(),
                nodes == arena_view(arena@),
                i <= n,
                forall|a: int|
                    0 <= a < i ==> {
                        &&& (#[trigger] nodes[a]).vector.len() == dimension
                        &&& forall|b: int|
                            0 <= b < nodes[a].neighbors.len() ==> (#[trigger] nodes[a].neighbors[b])
                                < n
                    },
            decreases n - i,
        {
            if arena[i].vector.len() != dimension {
                assert(nodes[i as int].vector.len() != dimension);
                return Err(IndexError::Malformed);
            }
            let nbrs = &arena[i].neighbors;
            let mut j: usize = 0;
            while j < nbrs.len()
                invariant
                    n == arena@.len(),
                    nodes == arena_view(arena@),
                    i < n,
                    nbrs@ == nodes[i as int].neighbors,
                    j <= nbrs@.len(),
                    forall|b: int| 0 <= b < j ==> (#[trigger] nbrs@[b]) < n,
                decreases nbrs@.len() - j,
            {
                if nbrs[j] >= n {
                    assert(!(nodes[i as int].neighbors[j as int] < nodes.len()));
                    return Err(IndexError::Malformed);
                }
                j += 1;
            }
            i += 1;
        }
        Ok(VectorIndex { arena, dimension, entry_point })
    }
}

} // verus!

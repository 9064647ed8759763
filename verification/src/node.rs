//! The storage unit of the index: a vector and the edges that leave it.

use vstd::prelude::*;

verus! {

/// One stored vector with its adjacency list.
///
/// `vector` holds the components as 32-bit words and never changes once the node is
/// stored. `neighbors` holds positions of other nodes in the arena, in the order in
/// which the edges were made; nothing prevents an edge from occurring twice.
#[derive(Debug, Clone)]
pub struct Node {
    pub vector: Vec<u32>,
    pub neighbors: Vec<usize>,
}

/// The mathematical value of a [`Node`].
pub ghost struct NodeView {
    pub vector: Seq<u32>,
    pub neighbors: Seq<usize>,
}

impl View for Node {
    type V = NodeView;

    open spec fn view(&self) -> NodeView {
        NodeView { vector: self.vector@, neighbors: self.neighbors@ }
    }
}

/// The values of the nodes of an arena, position by position.
pub open spec fn arena_view(arena: Seq<Node>) -> Seq<NodeView> {
    Seq::new(arena.len(), |i: int| arena[i]@)
}

/// The adjacency lists of an arena, position by position.
pub open spec fn adjacency(nodes: Seq<NodeView>) -> Seq<Seq<usize>> {
    Seq::new(nodes.len(), |i: int| nodes[i].neighbors)
}

/// Every vector has `dimension` components and every edge ends inside the arena.
pub open spec fn nodes_wf(nodes: Seq<NodeView>, dimension: usize) -> bool {
    forall|i: int|
        0 <= i < nodes.len() ==> {
            &&& (#[trigger] nodes[i]).vector.len() == dimension
            &&& forall|j: int|
                0 <= j < nodes[i].neighbors.len() ==> (#[trigger] nodes[i].neighbors[j])
                    < nodes.len()
        }
}

} // verus!

use vstd::prelude::*;
use crate::vector::VectorItem;

verus! {

/// A stored node as the index presents it to callers: the item, the top
/// layer the node participates in, and one neighbour-id list per layer
/// `0..=layer`.
#[derive(Debug)]
pub struct Node {
    pub id: usize,
    pub connections: Vec<Vec<usize>>,
    pub item: VectorItem,
    pub layer: usize,
}

/// A stored node as the graph holds it. Neighbour lists carry table
/// slots (positions in the node table, which only ever grows), not ids;
/// the public [`Node`] names neighbours by id instead.
#[derive(Debug)]
pub(crate) struct GraphNode {
    pub(crate) item: VectorItem,
    pub(crate) layer: usize,
    pub(crate) connections: Vec<Vec<usize>>,
}

/// The mathematical image of one stored node: neighbour lists carry ids.
pub ghost struct NodeView {
    pub id: usize,
    pub vector: Seq<u64>,
    pub top_layer: usize,
    pub connections: Seq<Seq<usize>>,
}

} // verus!

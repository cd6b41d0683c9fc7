//! Graph algorithms over adjacency lists.
use vstd::prelude::*;

pub mod louvain;
pub mod pathfinding;

verus! {

/// A node of a graph given by adjacency lists.
pub trait AbstractNode {
    /// The indices of the node's neighbours, in list order.
    spec fn neighbors_view(&self) -> Seq<usize>;

    fn neighbors(&self) -> (r: &[usize])
        ensures
            r@ == self.neighbors_view(),
    ;

    /// The text that names the node.
    spec fn display_view(&self) -> Seq<char>;

    fn display(&self) -> (r: &str)
        ensures
            r@ == self.display_view(),
    ;
}

} // verus!

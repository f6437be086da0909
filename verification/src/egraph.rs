//! What the extraction engine needs to know of an e-graph.

use crate::assignment::{assignment_entries, unique_keys, Assignment, ClassId, NodeId};
use crate::extraction::well_ordered;
use vstd::prelude::*;

verus! {

/// The mathematical content of an e-graph: for each class the nodes that
/// belong to it, and for each node its child classes in positional order.
pub ghost struct GraphModel {
    pub members: spec_fn(ClassId) -> Seq<NodeId>,
    pub children: spec_fn(NodeId) -> Seq<ClassId>,
}

/// The core egraph specifications: Egraphs represent equivalence classes of
/// terms. Classes contain possible nodes, whose children are themselves
/// equivalence classes.
///
/// Both queries are functions of the graph and the identifier: asking twice
/// gives the same answer. A class may have no members; such a class cannot be
/// extracted.
pub trait Egraph {
    /// The graph as a mathematical value.
    spec fn model(&self) -> GraphModel;

    /// The child classes of a node, in positional order.
    fn children(&self, id: &NodeId) -> (kids: &[ClassId])
        ensures
            kids@ == (self.model().children)(*id),
    ;

    /// The nodes that belong to a class.
    fn members(&self, id: &ClassId) -> (nodes: &[NodeId])
        ensures
            nodes@ == (self.model().members)(*id),
    ;
}

/// What the search asks of a utility: a score of an assignment, where higher
/// is better.
///
/// The search adds utilities up, averages them, and ranks the children of a
/// tree node by an upper confidence bound. It never looks into a utility; all
/// it compares are the ranks.
pub trait Utility: Sized {
    /// The utility of a rollout that failed, and the total of a tree node
    /// that was never visited.
    fn zero() -> Self;

    /// The exploration constant that the search uses by default.
    fn default_exploration() -> Self;

    /// The sum of two utilities.
    fn plus(&self, other: &Self) -> Self;

    /// The mean of `samples` utilities whose sum is `self`.
    fn mean(&self, samples: usize) -> Self
        requires
            samples >= 1,
    ;

    /// The rank of a child among its siblings, where `self` is the total
    /// utility of the child, `child_visits` the number of playouts through
    /// it, `parent_visits` the number of playouts through its parent, and
    /// `exploration` the weight of exploration. A child with a higher upper
    /// confidence bound has a higher rank. The parent has been visited.
    fn uct_rank(&self, child_visits: u32, parent_visits: u32, exploration: &Self) -> u32
        requires
            parent_visits >= 1,
    ;
}

/// An Egraph that also has a means of estimating the total cost associated with
/// an assignment.
pub trait EgraphTotalCost: Egraph {
    type Utility: Utility;

    /// The utility of a complete assignment for the egraph.
    ///
    /// The engine only asks for the utility of assignments that give a node
    /// to every child class of every node they choose.
    fn assignment_utility(&self, assignment: &Assignment) -> Self::Utility
        requires
            unique_keys(assignment_entries(*assignment)),
            well_ordered(assignment_entries(*assignment), self.model()),
    ;
}

} // verus!

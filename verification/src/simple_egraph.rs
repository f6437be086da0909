//! A simple egraph data-structure: two tables and a scoring function.
//!
//! This module does not implement congruence closure, or any other useful
//! egraph algorithms.

use crate::assignment::{assignment_entries, unique_keys, Assignment, ClassId, NodeId};
use crate::egraph::{Egraph, EgraphTotalCost, GraphModel, Utility};
use crate::extraction::well_ordered;
use vstd::prelude::*;

verus! {

/// A way to score the complete assignments of a [`SimpleEgraph`].
pub trait ScoreFn: Sized {
    type Utility: Utility;

    /// The utility of `assignment`, a complete assignment for `egraph`.
    fn score(&self, assignment: &Assignment, egraph: &SimpleEgraph<Self>) -> Self::Utility
        requires
            unique_keys(assignment_entries(*assignment)),
            well_ordered(assignment_entries(*assignment), egraph.model()),
    ;
}

/// An e-graph given by the children of each node and the members of each
/// class. A node or a class beyond the end of its table has no children and
/// no members.
pub struct SimpleEgraph<S> {
    pub nodes: Vec<Vec<ClassId>>,
    pub classes: Vec<Vec<NodeId>>,
    pub score_fn: S,
}

impl<S> Egraph for SimpleEgraph<S> {
    open spec fn model(&self) -> GraphModel {
        GraphModel {
            members: |class: ClassId|
                if class < self.classes@.len() {
                    self.classes@[class as int]@
                } else {
                    Seq::empty()
                },
            children: |node: NodeId|
                if node < self.nodes@.len() {
                    self.nodes@[node as int]@
                } else {
                    Seq::empty()
                },
        }
    }

    fn children(&self, id: &NodeId) -> (kids: &[ClassId]) {
        if *id < self.nodes.len() {
            self.nodes[*id].as_slice()
        } else {
            &[]
        }
    }

    fn members(&self, id: &ClassId) -> (nodes: &[NodeId]) {
        if *id < self.classes.len() {
            self.classes[*id].as_slice()
        } else {
            &[]
        }
    }
}

impl<S: ScoreFn> EgraphTotalCost for SimpleEgraph<S> {
    type Utility = S::Utility;

    /// The utility that the scoring function gives.
    fn assignment_utility(&self, assignment: &Assignment) -> (utility: S::Utility)
        ensures
            call_ensures(S::score, (&self.score_fn, assignment, self), utility),
    {
        self.score_fn.score(assignment, self)
    }
}

} // verus!

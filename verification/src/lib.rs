//! Extraction of a term from an e-graph by Monte-Carlo tree search.
//!
//! An e-graph represents many equivalent terms at once: each class holds
//! nodes, and each node names child classes. An extraction picks one node for
//! the root class and for every class that a picked node names, without going
//! in a circle. [`mcts_extract`] searches for an extraction of high utility.
//!
//! The modules, from the leaves up:
//!
//! - [`backtrack_queue`]: a queue that can be restored to a snapshot.
//! - [`assignment`]: assignments, and what the map operations do to them.
//! - [`egraph`]: what the search needs of an e-graph and of a utility.
//! - [`extraction`]: what an extraction is, and why it is closed and acyclic.
//! - [`ground`]: the graphs on which extraction cannot fail.
//! - [`cascade`]: the order in which provisional choices are committed.
//! - [`deps`]: the dependency index that brings that order about.
//! - [`state_model`]: the value of an extraction state, snapshots and resets.
//! - [`extraction_state`]: the extraction state itself, and random rollouts.
//! - [`search_tree`]: the search tree and the playouts.
//! - [`simple_egraph`]: an e-graph given by two tables.
//! - [`fx`], [`rng`]: the hash collections and the random generator.

pub use crate::assignment::{Assignment, ClassId, NodeId};
pub use crate::egraph::{Egraph, EgraphTotalCost, Utility};

use crate::assignment::assignment_entries;
use crate::extraction::is_extraction;
use crate::ground::{has_safe_ground, is_safe_ground};
use crate::rng::entropy_rng;
use crate::search_tree::SearchTree;
use vstd::prelude::*;

pub mod assignment;
pub mod backtrack_queue;
pub mod cascade;
pub mod deps;
pub mod egraph;
pub mod extraction;
pub mod extraction_state;
pub mod fx;
pub mod ground;
pub mod rng;
pub mod search_tree;
pub mod simple_egraph;
pub mod state_model;

verus! {

/// Tuning parameters for the search.
#[derive(Clone, Copy)]
pub struct MctsConfig {
    /// The number of playouts to run before the next class is committed.
    pub playouts_per_round: usize,
    /// The number of random completions averaged to estimate the utility of
    /// a partial assignment.
    pub terms_to_sample: usize,
}

/// Extract an assignment from an egraph using Monte-Carlo Tree Search.
///
/// Returns `None` if extraction fails. An assignment that is returned is an
/// extraction of `root`: it gives `root` a node, every node it gives is a
/// member of its class, and every child class of such a node has a node too,
/// without a cycle. Whether the search finds one depends on the utilities
/// and on chance; it finds none where `root` has no members, and none with
/// fewer than two playouts per round, after which the root of the search
/// tree has no child yet. With two playouts or more per round it is bound to
/// find one where no choice can go wrong: `root` is on safe ground, where
/// every class has a member and no member leads into a cycle.
pub fn mcts_extract<E: EgraphTotalCost>(egraph: &E, root: ClassId, config: MctsConfig) -> (found:
    Option<Assignment>)
    requires
        config.terms_to_sample >= 1,
    ensures
        found is Some ==> is_extraction(assignment_entries(found->Some_0), egraph.model(), root),
        (egraph.model().members)(root).len() == 0 ==> found is None,
        config.playouts_per_round <= 1 ==> found is None,
        config.playouts_per_round >= 2 && has_safe_ground(
            egraph.model(),
            root,
            config.playouts_per_round as nat,
        ) ==> found is Some,
{
    let tree = SearchTree::<E::Utility>::new(root);
    assert(tree@.wf(egraph.model()));
    let rng = entropy_rng();
    let mut searcher = tree.start_round(
        rng,
        config.terms_to_sample,
        E::Utility::default_exploration(),
    );
    proof {
        let g = egraph.model();
        let playouts = config.playouts_per_round as nat;
        if playouts >= 2 && has_safe_ground(g, root, playouts) {
            let ground = choose|classes: Set<ClassId>, rank: spec_fn(ClassId) -> nat|
                #[trigger] is_safe_ground(g, classes, rank) && classes.contains(root) && (
                classes.len() + 1) * playouts <= u32::MAX;
            assert(searcher@.on_safe_ground(g, ground.0, ground.1, playouts));
        }
    }
    searcher.assign(&config, egraph)
}

} // verus!

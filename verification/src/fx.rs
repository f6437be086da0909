//! The hash collections of the standard library with `fxhash`'s hasher, as
//! far as the crate uses them.

use crate::assignment::{ClassId, NodeId};
use crate::search_tree::TreeNodeId;
use fxhash::{FxHashMap, FxHashSet};
use vstd::prelude::*;

verus! {

/// Calls `HashSet::insert`: adds the class to the set and tells whether it
/// was not there before.
#[verifier::external_body]
pub(crate) fn class_set_insert(set: &mut FxHashSet<ClassId>, class: ClassId) -> (fresh: bool)
    ensures
        final(set)@ == old(set)@.insert(class),
        fresh == !old(set)@.contains(class),
{
    set.insert(class)
}

/// Calls `HashSet::remove`: takes the class out of the set and tells
/// whether it was there.
#[verifier::external_body]
pub(crate) fn class_set_remove(set: &mut FxHashSet<ClassId>, class: ClassId) -> (present: bool)
    ensures
        final(set)@ == old(set)@.remove(class),
        present == old(set)@.contains(class),
{
    set.remove(&class)
}


/// Calls `HashMap::get`: the tree node that the map gives to an e-node, if
/// it gives one.
#[verifier::external_body]
pub(crate) fn child_map_get(map: &FxHashMap<NodeId, TreeNodeId>, node: NodeId) -> (child:
    Option<TreeNodeId>)
    ensures
        child is Some <==> map@.contains_key(node),
        child is Some ==> child->Some_0 == map@[node],
{
    map.get(&node).copied()
}

/// Calls `HashMap::insert`: the map gives `child` to `node` from now on.
#[verifier::external_body]
pub(crate) fn child_map_insert(
    map: &mut FxHashMap<NodeId, TreeNodeId>,
    node: NodeId,
    child: TreeNodeId,
)
    ensures
        final(map)@ == old(map)@.insert(node, child),
{
    map.insert(node, child);
}

} // verus!

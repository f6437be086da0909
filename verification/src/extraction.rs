//! What it means for an assignment to be an extraction.
//!
//! An assignment is kept as its sequence of entries in the order in which
//! they were committed. The engine commits a node only once all child classes
//! of the node are committed, so that order is a witness that the chosen
//! nodes do not depend on one another in a cycle.

use crate::assignment::{entries_within, has_key, key_at, unique_keys, ClassId, NodeId};
use crate::egraph::GraphModel;
use vstd::prelude::*;

verus! {

/// Every class among `children` has an entry in `assign`.
pub open spec fn resolved(assign: Seq<(ClassId, NodeId)>, children: Seq<ClassId>) -> bool {
    forall|k: int| 0 <= k < children.len() ==> has_key(assign, #[trigger] children[k])
}

/// Each entry's node has all its child classes among the entries before it.
pub open spec fn well_ordered(assign: Seq<(ClassId, NodeId)>, g: GraphModel) -> bool {
    forall|i: int|
        0 <= i < assign.len() ==> resolved(#[trigger] assign.take(i), (g.children)(assign[i].1))
}

/// No provisional entry that is not committed could be: its node has a child
/// class that is not committed.
pub open spec fn stuck(
    assign: Seq<(ClassId, NodeId)>,
    prov: Seq<(ClassId, NodeId)>,
    g: GraphModel,
) -> bool {
    forall|i: int|
        0 <= i < prov.len() && !has_key(assign, (#[trigger] prov[i]).0) ==> !resolved(
            assign,
            (g.children)(prov[i].1),
        )
}

/// Each entry's node is a member of the entry's class.
pub open spec fn chosen_from_members(assign: Seq<(ClassId, NodeId)>, g: GraphModel) -> bool {
    forall|i: int|
        0 <= i < assign.len() ==> (g.members)((#[trigger] assign[i]).0).contains(assign[i].1)
}

/// The class of entry `i` is a child class of the node of a later entry.
pub open spec fn is_named_later(assign: Seq<(ClassId, NodeId)>, g: GraphModel, i: int) -> bool {
    exists|j: int| i < j < assign.len() && #[trigger] (g.children)(assign[j].1).contains(assign[i].0)
}

/// No entry is there without need: every class but `root` is a child class
/// of the node of a later entry.
pub open spec fn rooted(assign: Seq<(ClassId, NodeId)>, g: GraphModel, root: ClassId) -> bool {
    forall|i: int|
        0 <= i < assign.len() && (#[trigger] assign[i]).0 != root ==> is_named_later(assign, g, i)
}

/// `assign` is an extraction of `root` from the graph: it gives `root` a
/// node, gives every class one node at most, picks each node from the
/// members of its class, gives a node to every child class of every node
/// it picks, with no cycle among them, and gives a node to no other class.
pub open spec fn is_extraction(assign: Seq<(ClassId, NodeId)>, g: GraphModel, root: ClassId) -> bool {
    &&& unique_keys(assign)
    &&& has_key(assign, root)
    &&& chosen_from_members(assign, g)
    &&& well_ordered(assign, g)
    &&& rooted(assign, g, root)
}

/// `path` starts at a class of `assign` and goes, step by step, from a class
/// to a child class of the node that `assign` gives it.
pub open spec fn is_descent(assign: Seq<(ClassId, NodeId)>, g: GraphModel, path: Seq<int>) -> bool {
    &&& forall|n: int| 0 <= n < path.len() ==> 0 <= #[trigger] path[n] < assign.len()
    &&& forall|n: int|
        0 <= n < path.len() - 1 ==> (g.children)(assign[#[trigger] path[n]].1).contains(
            assign[path[n + 1]].0,
        )
}

/// In a well-ordered assignment every node is chosen from the members of its
/// class and every child class of a chosen node has an entry of its own.
pub proof fn lemma_extraction_is_closed(
    assign: Seq<(ClassId, NodeId)>,
    g: GraphModel,
    root: ClassId,
    i: int,
    k: int,
)
    requires
        is_extraction(assign, g, root),
        0 <= i < assign.len(),
        0 <= k < (g.children)(assign[i].1).len(),
    ensures
        (g.members)(assign[i].0).contains(assign[i].1),
        has_key(assign, (g.children)(assign[i].1)[k]),
{
    let child = (g.children)(assign[i].1)[k];
    assert(resolved(assign.take(i), (g.children)(assign[i].1)));
    assert(has_key(assign.take(i), child));
    let j = choose|j: int| key_at(assign.take(i), j, child);
    assert(key_at(assign, j, child));
}

/// Going from a class to a child class of its chosen node moves strictly
/// towards the front of a well-ordered assignment.
pub proof fn lemma_child_comes_earlier(
    assign: Seq<(ClassId, NodeId)>,
    g: GraphModel,
    i: int,
    j: int,
)
    requires
        unique_keys(assign),
        well_ordered(assign, g),
        0 <= i < assign.len(),
        0 <= j < assign.len(),
        (g.children)(assign[i].1).contains(assign[j].0),
    ensures
        j < i,
{
    let kids = (g.children)(assign[i].1);
    let k = choose|k: int| 0 <= k < kids.len() && kids[k] == assign[j].0;
    assert(resolved(assign.take(i), kids));
    assert(has_key(assign.take(i), kids[k]));
    let m = choose|m: int| key_at(assign.take(i), m, assign[j].0);
    assert(assign[m].0 == assign[j].0);
    if m < j {
        assert(assign[m].0 != assign[j].0);
    }
    if j < m {
        assert(assign[j].0 != assign[m].0);
    }
}

/// The term that a well-ordered assignment induces is finite: no descent
/// through it is longer than the assignment, whatever class it starts at.
pub proof fn lemma_extraction_is_acyclic(
    assign: Seq<(ClassId, NodeId)>,
    g: GraphModel,
    path: Seq<int>,
)
    requires
        unique_keys(assign),
        well_ordered(assign, g),
        is_descent(assign, g, path),
    ensures
        path.len() <= assign.len(),
        forall|n: int| 0 <= n < path.len() ==> #[trigger] path[n] + n <= path[0],
    decreases path.len(),
{
    if path.len() > 1 {
        let init = path.drop_last();
        assert(is_descent(assign, g, init)) by {
            assert forall|n: int| 0 <= n < init.len() implies 0 <= #[trigger] init[n]
                < assign.len() by {
                assert(init[n] == path[n]);
            }
            assert forall|n: int| 0 <= n < init.len() - 1 implies (g.children)(
                assign[#[trigger] init[n]].1,
            ).contains(assign[init[n + 1]].0) by {
                assert(init[n] == path[n]);
                assert(init[n + 1] == path[n + 1]);
            }
        }
        lemma_extraction_is_acyclic(assign, g, init);
        let last = path.len() - 1;
        assert(init[last - 1] == path[last - 1]);
        assert(init[0] == path[0]);
        assert(0 <= path[last - 1] < assign.len());
        assert(0 <= path[last] < assign.len());
        lemma_child_comes_earlier(assign, g, path[last - 1], path[last]);
        assert forall|n: int| 0 <= n < path.len() implies #[trigger] path[n] + n <= path[0] by {
            if n < last {
                assert(init[n] == path[n]);
            }
        }
        assert(path[last] + last <= path[0]);
    } else if path.len() == 1 {
        assert(0 <= path[0] < assign.len());
    }
}

/// The first `upto` entries of a well-ordered selection of provisional
/// entries are committed in every selection that is stuck.
proof fn lemma_prefix_is_committed(
    first: Seq<(ClassId, NodeId)>,
    second: Seq<(ClassId, NodeId)>,
    prov: Seq<(ClassId, NodeId)>,
    g: GraphModel,
    upto: int,
)
    requires
        entries_within(first, prov),
        well_ordered(first, g),
        stuck(second, prov, g),
        0 <= upto <= first.len(),
    ensures
        forall|j: int| 0 <= j < upto ==> has_key(second, (#[trigger] first[j]).0),
    decreases upto,
{
    if upto > 0 {
        lemma_prefix_is_committed(first, second, prov, g, upto - 1);
        let last = upto - 1;
        let kids = (g.children)(first[last].1);
        assert(resolved(first.take(last), kids));
        assert forall|k: int| 0 <= k < kids.len() implies has_key(second, #[trigger] kids[k]) by {
            assert(has_key(first.take(last), kids[k]));
            let m = choose|m: int| key_at(first.take(last), m, kids[k]);
            assert(first.take(last)[m] == first[m]);
            assert(has_key(second, first[m].0));
        }
        assert(prov.contains(first[last]));
        let q = choose|q: int| 0 <= q < prov.len() && prov[q] == first[last];
        if !has_key(second, prov[q].0) {
            assert(!resolved(second, (g.children)(prov[q].1)));
        }
    }
}

/// Which classes are committed is a matter of the provisional entries and
/// the graph alone: two selections of provisional entries that are both well
/// ordered and both stuck commit the same classes, in whatever order.
pub proof fn lemma_committed_classes_are_determined(
    first: Seq<(ClassId, NodeId)>,
    second: Seq<(ClassId, NodeId)>,
    prov: Seq<(ClassId, NodeId)>,
    g: GraphModel,
    class: ClassId,
)
    requires
        entries_within(first, prov),
        well_ordered(first, g),
        stuck(first, prov, g),
        entries_within(second, prov),
        well_ordered(second, g),
        stuck(second, prov, g),
    ensures
        has_key(first, class) <==> has_key(second, class),
{
    if has_key(first, class) {
        let i = choose|i: int| key_at(first, i, class);
        lemma_prefix_is_committed(first, second, prov, g, first.len() as int);
        assert(has_key(second, first[i].0));
    }
    if has_key(second, class) {
        let i = choose|i: int| key_at(second, i, class);
        lemma_prefix_is_committed(second, first, prov, g, second.len() as int);
        assert(has_key(first, second[i].0));
    }
}

} // verus!

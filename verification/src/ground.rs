//! Graphs on which extraction cannot fail.
//!
//! A set of classes is safe ground if each of its classes has a member and
//! every member of each of its classes has its child classes in the set, at
//! a lower rank. On safe ground every choice of members leads to a complete
//! assignment: no class is without a node to choose, and no choice closes a
//! cycle.

use crate::assignment::{
    has_key, key_at, keys_of, lemma_keys_within_len, unique_keys, ClassId, NodeId,
};
use crate::egraph::GraphModel;
use crate::extraction::{chosen_from_members, resolved};
use crate::state_model::{lemma_new_visits_are_children, new_visits, Frame};
use crate::cascade::Watcher;
use vstd::prelude::*;

verus! {

/// `classes` is safe ground in the graph: it is finite, each of its classes
/// has a member, and the child classes of every member of each of its
/// classes are in it, at a lower rank.
pub open spec fn is_safe_ground(
    g: GraphModel,
    classes: Set<ClassId>,
    rank: spec_fn(ClassId) -> nat,
) -> bool {
    &&& classes.finite()
    &&& forall|class: ClassId| #[trigger] classes.contains(class) ==> (g.members)(class).len() > 0
    &&& forall|class: ClassId, node: NodeId, child: ClassId|
        classes.contains(class) && #[trigger] (g.members)(class).contains(node) && #[trigger] (
        g.children)(node).contains(child) ==> classes.contains(child) && rank(child) < rank(class)
}

/// The graph has safe ground that holds `root`, small enough for a search
/// tree to hold the nodes that `playouts` playouts per class of the ground,
/// and as many again, can add.
pub open spec fn has_safe_ground(g: GraphModel, root: ClassId, playouts: nat) -> bool {
    exists|classes: Set<ClassId>, rank: spec_fn(ClassId) -> nat|
        #[trigger] is_safe_ground(g, classes, rank) && classes.contains(root) && (classes.len()
            + 1) * playouts <= u32::MAX
}

impl Frame {
    /// Every class that has a provisional node or awaits one is in `classes`.
    pub open spec fn within(self, classes: Set<ClassId>) -> bool {
        &&& forall|i: int|
            0 <= i < self.provisional.len() ==> classes.contains((#[trigger] self.provisional[i]).0)
        &&& forall|class: ClassId| #[trigger]
            self.to_visit_set.contains(class) ==> classes.contains(class)
    }
}

impl Frame {
    /// No choice of members can go wrong from this frame: the nodes chosen so
    /// far are members of their classes, and all classes met so far are on
    /// safe ground.
    pub open spec fn is_on_safe_ground(self, g: GraphModel) -> bool {
        chosen_from_members(self.provisional, g) && exists|
            classes: Set<ClassId>,
            rank: spec_fn(ClassId) -> nat,
        | #[trigger] is_safe_ground(g, classes, rank) && self.within(classes)
    }
}

/// A frame within a set of classes has no more provisional entries than the
/// set has classes.
pub proof fn lemma_within_is_bounded(f: Frame, classes: Set<ClassId>)
    requires
        unique_keys(f.provisional),
        f.within(classes),
        classes.finite(),
    ensures
        f.provisional.len() <= classes.len(),
{
    let keys = keys_of(f.provisional);
    assert(keys.no_duplicates()) by {
        assert forall|i: int, j: int| 0 <= i < keys.len() && 0 <= j < keys.len() && i
            != j implies keys[i] != keys[j] by {
            if i < j {
                assert(f.provisional[i].0 != f.provisional[j].0);
            } else {
                assert(f.provisional[j].0 != f.provisional[i].0);
            }
        }
    }
    keys.unique_seq_to_set();
    assert(keys.to_set().subset_of(classes)) by {
        assert forall|class: ClassId| keys.to_set().contains(class) implies classes.contains(
            class,
        ) by {
            let i = choose|i: int| 0 <= i < keys.len() && keys[i] == class;
            assert(classes.contains(f.provisional[i].0));
        }
    }
    vstd::set_lib::lemma_len_subset(keys.to_set(), classes);
}

/// On safe ground, with no class awaiting a node, every provisional entry
/// whose class is below a given rank is committed.
proof fn lemma_committed_below(
    f: Frame,
    g: GraphModel,
    classes: Set<ClassId>,
    rank: spec_fn(ClassId) -> nat,
    below: nat,
)
    requires
        f.wf(g),
        chosen_from_members(f.provisional, g),
        is_safe_ground(g, classes, rank),
        f.within(classes),
        f.to_visit_set.is_empty(),
    ensures
        forall|i: int|
            0 <= i < f.provisional.len() && rank((#[trigger] f.provisional[i]).0) < below
                ==> has_key(f.assign, f.provisional[i].0),
    decreases below,
{
    if below > 0 {
        lemma_committed_below(f, g, classes, rank, (below - 1) as nat);
        assert forall|i: int|
            0 <= i < f.provisional.len() && rank((#[trigger] f.provisional[i]).0)
                < below implies has_key(f.assign, f.provisional[i].0) by {
            let class = f.provisional[i].0;
            let node = f.provisional[i].1;
            let kids = (g.children)(node);
            if !has_key(f.assign, class) {
                assert(!resolved(f.assign, kids));
                let k = choose|k: int| 0 <= k < kids.len() && !has_key(f.assign, kids[k]);
                assert(f.child_is_dispatched(g, i, k));
                assert(!f.to_visit_set.contains(kids[k]));
                let j = choose|j: int| key_at(f.provisional, j, kids[k]);
                assert((g.members)(class).contains(node));
                assert(kids.contains(kids[k]));
                assert(rank(f.provisional[j].0) < rank(class));
                assert(has_key(f.assign, f.provisional[j].0));
            }
        }
    }
}

/// On safe ground an assignment is complete as soon as no class awaits a
/// node: every provisional entry is committed.
pub proof fn lemma_safe_ground_completes(
    f: Frame,
    g: GraphModel,
    classes: Set<ClassId>,
    rank: spec_fn(ClassId) -> nat,
)
    requires
        f.wf(g),
        chosen_from_members(f.provisional, g),
        is_safe_ground(g, classes, rank),
        f.within(classes),
        !f.to_visit.has_front(),
    ensures
        f.is_complete(),
{
    assert(f.to_visit.live() =~= Seq::empty());
    assert(f.to_visit_set =~= Set::empty());
    assert forall|i: int| 0 <= i < f.provisional.len() implies has_key(
        f.assign,
        (#[trigger] f.provisional[i]).0,
    ) by {
        lemma_committed_below(f, g, classes, rank, rank(f.provisional[i].0) + 1);
    }
    lemma_keys_within_len(f.provisional, f.assign);
}

/// On safe ground, giving a member of the next class to it keeps the frame
/// on that ground.
pub proof fn lemma_dispatch_stays_within(
    f: Frame,
    watchers: Map<ClassId, Seq<Watcher>>,
    node: NodeId,
    g: GraphModel,
    classes: Set<ClassId>,
    rank: spec_fn(ClassId) -> nat,
)
    requires
        f.within(classes),
        is_safe_ground(g, classes, rank),
        f.to_visit_set.contains(f.next_class()),
        (g.members)(f.next_class()).contains(node),
    ensures
        f.popped().dispatched(watchers, f.next_class(), node, g).0.within(classes),
{
    let class = f.next_class();
    let after = f.popped().dispatched(watchers, class, node, g).0;
    let kids = (g.children)(node);
    let visits = new_visits(kids, after.provisional, f.to_visit_set.remove(class));
    assert forall|i: int| 0 <= i < after.provisional.len() implies classes.contains(
        (#[trigger] after.provisional[i]).0,
    ) by {
        if i < f.provisional.len() {
            assert(after.provisional[i] == f.provisional[i]);
        }
    }
    assert forall|c: ClassId| #[trigger] after.to_visit_set.contains(c) implies classes.contains(
        c,
    ) by {
        if visits.contains(c) {
            let m = choose|m: int| 0 <= m < visits.len() && visits[m] == c;
            lemma_new_visits_are_children(
                kids,
                after.provisional,
                f.to_visit_set.remove(class),
                m,
            );
        } else {
            assert(f.to_visit_set.contains(c));
        }
    }
}

} // verus!

//! The mathematical value of an extraction state, its invariant, and what
//! snapshots and resets do to it.
//!
//! A state is a frame, a dependency index and a stack of snapshots. The frame
//! holds the committed and the provisional assignment and the queue of
//! classes to visit. The frame only ever grows at the back, so a snapshot is
//! a handful of lengths, and rolling back is cutting back to them and
//! building the index anew.

use crate::assignment::{
    entries_within, has_entry, has_key, key_at, lemma_entry_has_key, lemma_entry_unique,
    lemma_keys_within_len, truncated, unique_keys, ClassId, NodeId,
};
use crate::backtrack_queue::{QueueModel, SnapshotModel};
use crate::cascade::{rehydrate, track, Watcher};
use crate::deps::{commits_ok, lemma_keys_bound};
use crate::egraph::GraphModel;
use crate::extraction::{lemma_committed_classes_are_determined, resolved, stuck};
use vstd::prelude::*;

verus! {

/// Everything that can be observed of an extraction state, but for its stack
/// of snapshots.
pub ghost struct Frame {
    /// The committed assignment, in the order of commitment.
    pub assign: Seq<(ClassId, NodeId)>,
    /// The provisional assignment, in the order of dispatch.
    pub provisional: Seq<(ClassId, NodeId)>,
    /// The number of provisional entries that are not committed.
    pub n_remaining: nat,
    /// The queue of classes that await a node.
    pub to_visit: QueueModel<ClassId>,
    /// The classes that await a node, as a set.
    pub to_visit_set: Set<ClassId>,
}

/// The part of a frame that decides which class is next: the provisional
/// assignment and the queue with its set.
pub ghost struct QueueView {
    pub provisional: Seq<(ClassId, NodeId)>,
    pub to_visit: QueueModel<ClassId>,
    pub to_visit_set: Set<ClassId>,
}

/// What a snapshot records of a frame.
pub ghost struct SnapshotView {
    pub assign_len: nat,
    pub provisional_len: nat,
    pub n_remaining: nat,
    pub to_visit: SnapshotModel,
}

/// The mathematical value of an [`ExtractionState`](crate::extraction_state::ExtractionState).
pub ghost struct StateView {
    /// What can be observed of the state.
    pub frame: Frame,
    /// The dependency index: for each class, the provisional entries that
    /// wait for it, in the order in which they were filed. It decides the
    /// order in which entries are committed, and nothing else.
    pub watchers: Map<ClassId, Seq<Watcher>>,
    /// The stack of snapshots.
    pub snapshots: Seq<SnapshotView>,
}

/// The classes that `children` adds to the queue, in order: each child class
/// once, unless it has a provisional node or is in `queued` already.
pub open spec fn new_visits(
    children: Seq<ClassId>,
    prov: Seq<(ClassId, NodeId)>,
    queued: Set<ClassId>,
) -> Seq<ClassId>
    decreases children.len(),
{
    if children.len() == 0 {
        Seq::empty()
    } else {
        let before = new_visits(children.drop_last(), prov, queued);
        let child = children.last();
        if has_key(prov, child) || queued.contains(child) || before.contains(child) {
            before
        } else {
            before.push(child)
        }
    }
}

impl QueueView {
    /// The queue of a state that was just created for `root`.
    pub open spec fn initial(root: ClassId) -> QueueView {
        Frame::initial(root).queue_view()
    }

    /// The class that is next to be given a node. Meaningful where the queue
    /// has a front.
    pub open spec fn next_class(self) -> ClassId {
        self.to_visit.data[self.to_visit.front as int]
    }

    /// The queue after the class at its front has been given `node`.
    pub open spec fn advance(self, node: NodeId, g: GraphModel) -> QueueView {
        let class = self.next_class();
        let provisional = self.provisional.push((class, node));
        let queued = self.to_visit_set.remove(class);
        let visits = new_visits((g.children)(node), provisional, queued);
        let popped = self.to_visit.pop_front();
        QueueView {
            provisional,
            to_visit: QueueModel { data: popped.data + visits, front: popped.front },
            to_visit_set: queued.union(visits.to_set()),
        }
    }
}

impl Frame {
    /// The part of the frame that decides which class is next.
    pub open spec fn queue_view(self) -> QueueView {
        QueueView {
            provisional: self.provisional,
            to_visit: self.to_visit,
            to_visit_set: self.to_visit_set,
        }
    }

    /// The frame of a state that was just created for `root`.
    pub open spec fn initial(root: ClassId) -> Frame {
        Frame {
            assign: Seq::empty(),
            provisional: Seq::empty(),
            n_remaining: 0,
            to_visit: QueueModel { data: seq![root], front: 0 },
            to_visit_set: set![root],
        }
    }

    /// The class that is next to be given a node. Meaningful where the queue
    /// has a front.
    pub open spec fn next_class(self) -> ClassId {
        self.to_visit.data[self.to_visit.front as int]
    }

    /// The completion predicate: every provisional entry is committed and no
    /// class awaits a node.
    pub open spec fn is_complete(self) -> bool {
        self.n_remaining == 0 && self.to_visit_set.is_empty()
    }

    /// What a snapshot taken now records.
    pub open spec fn snapshot(self) -> SnapshotView {
        SnapshotView {
            assign_len: self.assign.len(),
            provisional_len: self.provisional.len(),
            n_remaining: self.n_remaining,
            to_visit: self.to_visit.snapshot(),
        }
    }

    /// The frame rolled back to a snapshot.
    pub open spec fn rewind(self, snap: SnapshotView) -> Frame {
        let to_visit = self.to_visit.restore(snap.to_visit);
        Frame {
            assign: truncated(self.assign, snap.assign_len),
            provisional: truncated(self.provisional, snap.provisional_len),
            n_remaining: snap.n_remaining,
            to_visit,
            to_visit_set: to_visit.live().to_set(),
        }
    }

    /// The snapshot describes a prefix of what the frame holds.
    pub open spec fn fits(self, snap: SnapshotView) -> bool {
        &&& snap.assign_len <= self.assign.len()
        &&& snap.provisional_len <= self.provisional.len()
        &&& snap.to_visit.back <= self.to_visit.data.len()
    }

    /// `self` was reached from `earlier` by dispatching and committing only:
    /// what `earlier` held is still in place.
    pub open spec fn extends(self, earlier: Frame) -> bool {
        &&& earlier.assign.is_prefix_of(self.assign)
        &&& earlier.provisional.is_prefix_of(self.provisional)
        &&& earlier.to_visit.data.is_prefix_of(self.to_visit.data)
    }

    /// The invariant of the queue and its set: the set holds the classes of
    /// the queue from the front on, none of them twice, none of them with a
    /// provisional node; the classes before the front all have one.
    pub open spec fn queue_wf(self) -> bool {
        &&& self.to_visit.front <= self.to_visit.data.len()
        &&& self.to_visit.live().no_duplicates()
        &&& self.to_visit_set == self.to_visit.live().to_set()
        &&& forall|c: ClassId| #[trigger]
            self.to_visit_set.contains(c) ==> !has_key(self.provisional, c)
        &&& forall|i: int|
            0 <= i < self.to_visit.front ==> has_key(self.provisional, #[trigger] self.to_visit.data[i])
    }

    /// The invariant of the two assignments: the committed entries are
    /// exactly the provisional entries that can be committed, in an order in
    /// which each comes after the child classes of its node.
    pub open spec fn commits_wf(self, g: GraphModel) -> bool {
        &&& commits_ok(self.assign, self.provisional, g)
        &&& stuck(self.assign, self.provisional, g)
        &&& self.n_remaining + self.assign.len() == self.provisional.len()
        &&& self.provisional.len() <= usize::MAX
    }

    /// Child `k` of the node of provisional entry `i` has a provisional entry
    /// itself or awaits a node.
    pub open spec fn child_is_dispatched(self, g: GraphModel, i: int, k: int) -> bool {
        let child = (g.children)(self.provisional[i].1)[k];
        has_key(self.provisional, child) || self.to_visit_set.contains(child)
    }

    /// No child class of a node with a provisional entry has been left out:
    /// each has a provisional entry or awaits a node.
    pub open spec fn children_dispatched(self, g: GraphModel) -> bool {
        forall|i: int, k: int|
            0 <= i < self.provisional.len() && 0 <= k < (g.children)(self.provisional[i].1).len()
                ==> #[trigger] self.child_is_dispatched(g, i, k)
    }

    /// The class of provisional entry `i` has left the queue.
    pub open spec fn was_queued(self, i: int) -> bool {
        exists|j: int|
            0 <= j < self.to_visit.front && j < self.to_visit.data.len()
                && #[trigger] self.to_visit.data[j] == self.provisional[i].0
    }

    /// The class at position `j` of the queue is a child class of a node
    /// with a provisional entry.
    pub open spec fn has_parent(self, g: GraphModel, j: int) -> bool {
        exists|i: int|
            0 <= i < self.provisional.len() && #[trigger] (g.children)(
                self.provisional[i].1,
            ).contains(self.to_visit.data[j])
    }

    /// Nothing is in the frame without need: every class with a provisional
    /// entry came through the queue, and every class that came into the queue
    /// after the first is a child class of a node with a provisional entry.
    pub open spec fn traced(self, g: GraphModel) -> bool {
        &&& forall|i: int| 0 <= i < self.provisional.len() ==> #[trigger] self.was_queued(i)
        &&& forall|j: int| 1 <= j < self.to_visit.data.len() ==> #[trigger] self.has_parent(g, j)
    }

    /// The invariant of a frame.
    pub open spec fn wf(self, g: GraphModel) -> bool {
        &&& self.queue_wf()
        &&& self.commits_wf(g)
        &&& self.children_dispatched(g)
        &&& self.traced(g)
    }

    /// The frame and the dependency index after `class`, which has just been
    /// popped from the queue, has been given `node`: the class has left the set
    /// and has a provisional entry; that entry is committed or filed, with
    /// all that follows from a commit; and the child classes of `node` that
    /// have no provisional node and are not queued are queued, each once.
    pub open spec fn dispatched(
        self,
        watchers: Map<ClassId, Seq<Watcher>>,
        class: ClassId,
        node: NodeId,
        g: GraphModel,
    ) -> (Frame, Map<ClassId, Seq<Watcher>>) {
        let provisional = self.provisional.push((class, node));
        let outcome = track(
            watchers,
            self.assign,
            class,
            node,
            (g.children)(node),
            provisional.len(),
        );
        let queued = self.to_visit_set.remove(class);
        let visits = new_visits((g.children)(node), provisional, queued);
        (
            Frame {
                assign: outcome.1,
                provisional,
                n_remaining: (self.n_remaining + 1 - (outcome.1.len() - self.assign.len())) as nat,
                to_visit: QueueModel {
                    data: self.to_visit.data + visits,
                    front: self.to_visit.front,
                },
                to_visit_set: queued.union(visits.to_set()),
            },
            outcome.0,
        )
    }

    /// The frame with the front of its queue popped. The set is as it was.
    pub open spec fn popped(self) -> Frame {
        Frame {
            assign: self.assign,
            provisional: self.provisional,
            n_remaining: self.n_remaining,
            to_visit: self.to_visit.pop_front(),
            to_visit_set: self.to_visit_set,
        }
    }

    /// What giving `node` to the class at the front of the queue does to a
    /// frame, without regard to the dependency index: the class gets a
    /// provisional entry, the front moves on, and the child classes of `node`
    /// that are new to the state join the queue. The committed entries are
    /// kept. If some child class of `node` is not committed, nothing is
    /// committed; otherwise the new entry is, and after it every provisional
    /// entry that this sets free. Together with the frame's invariant, which
    /// says which entries are committed, this leaves open only the order of
    /// the committed entries that follow the new one; that order is a matter
    /// of the dependency index, see [`StateView::assign`].
    pub open spec fn assigned(self, node: NodeId, g: GraphModel, after: Frame) -> bool {
        &&& after.provisional == self.provisional.push((self.next_class(), node))
        &&& self.assign.is_prefix_of(after.assign)
        &&& after.to_visit.front == self.to_visit.front + 1
        &&& after.to_visit.data == self.to_visit.data + new_visits(
            (g.children)(node),
            after.provisional,
            self.to_visit_set.remove(self.next_class()),
        )
        &&& if resolved(self.assign, (g.children)(node)) {
            after.assign.len() > self.assign.len() && after.assign[self.assign.len() as int] == (
                self.next_class(),
                node,
            )
        } else {
            after.assign == self.assign
        }
    }
}

/// The invariant of a stack of snapshots under a frame: the frame can be
/// rolled back to the top snapshot, the result is a sound frame, and the rest
/// of the stack is sound under that frame.
pub open spec fn snapshots_wf(frame: Frame, snapshots: Seq<SnapshotView>, g: GraphModel) -> bool
    decreases snapshots.len(),
{
    if snapshots.len() == 0 {
        true
    } else {
        &&& frame.fits(snapshots.last())
        &&& frame.rewind(snapshots.last()).wf(g)
        &&& snapshots_wf(frame.rewind(snapshots.last()), snapshots.drop_last(), g)
    }
}

impl StateView {
    /// The state that was just created for `root`: the root awaits a node,
    /// and one snapshot of this very state is on the stack.
    pub open spec fn initial(root: ClassId) -> StateView {
        StateView {
            frame: Frame::initial(root),
            watchers: Map::empty(),
            snapshots: seq![Frame::initial(root).snapshot()],
        }
    }

    /// The state with a snapshot of its frame pushed.
    pub open spec fn push_snapshot(self) -> StateView {
        StateView {
            frame: self.frame,
            watchers: self.watchers,
            snapshots: self.snapshots.push(self.frame.snapshot()),
        }
    }

    /// The state without its top snapshot, if it has one.
    pub open spec fn pop_snapshot(self) -> StateView {
        if self.snapshots.len() > 0 {
            StateView {
                frame: self.frame,
                watchers: self.watchers,
                snapshots: self.snapshots.drop_last(),
            }
        } else {
            self
        }
    }

    /// The state with its dependency index built anew from its frame: what
    /// can be observed of the state is as it was.
    pub open spec fn rehydrated(self, g: GraphModel) -> StateView {
        StateView {
            frame: self.frame,
            watchers: rehydrate(
                self.frame.provisional,
                self.frame.assign,
                g,
                self.frame.provisional.len(),
            ),
            snapshots: self.snapshots,
        }
    }

    /// The state rolled back to its top snapshot, which stays on the stack;
    /// the dependency index is built anew for the frame rolled back to.
    pub open spec fn reset(self, g: GraphModel) -> StateView {
        if self.snapshots.len() > 0 {
            StateView {
                frame: self.frame.rewind(self.snapshots.last()),
                watchers: self.watchers,
                snapshots: self.snapshots,
            }.rehydrated(g)
        } else {
            self
        }
    }

    /// The state after the class at the front of the queue has been given
    /// `node`.
    pub open spec fn assign(self, node: NodeId, g: GraphModel) -> StateView {
        let dispatched = self.frame.popped().dispatched(
            self.watchers,
            self.frame.next_class(),
            node,
            g,
        );
        StateView { frame: dispatched.0, watchers: dispatched.1, snapshots: self.snapshots }
    }

    /// The state after the classes at the front of the queue have been
    /// given the nodes of `nodes`, one after the other.
    pub open spec fn assign_all(self, nodes: Seq<NodeId>, g: GraphModel) -> StateView
        decreases nodes.len(),
    {
        if nodes.len() == 0 {
            self
        } else {
            self.assign_all(nodes.drop_last(), g).assign(nodes.last(), g)
        }
    }

    /// What can be observed of the two states is the same: they differ in
    /// their dependency index at most.
    pub open spec fn looks_like(self, other: StateView) -> bool {
        self.frame == other.frame && self.snapshots == other.snapshots
    }

    /// The invariant of the observable state.
    pub open spec fn wf(self, g: GraphModel) -> bool {
        self.frame.wf(g) && snapshots_wf(self.frame, self.snapshots, g)
    }

    /// `self` was reached from `earlier`, a state that had just pushed a
    /// snapshot, by steps that left that snapshot on top of the stack and
    /// kept what `earlier` held.
    pub open spec fn follows(self, earlier: StateView) -> bool {
        &&& earlier.snapshots.len() > 0
        &&& earlier.snapshots.last() == earlier.frame.snapshot()
        &&& self.snapshots == earlier.snapshots
        &&& self.frame.extends(earlier.frame)
    }
}

/// Rolling a frame back to the snapshot it has just taken changes nothing.
pub proof fn lemma_rewind_own_snapshot(f: Frame)
    requires
        f.to_visit_set == f.to_visit.live().to_set(),
    ensures
        f.rewind(f.snapshot()) == f,
{
    let r = f.rewind(f.snapshot());
    assert(f.assign.take(f.assign.len() as int) =~= f.assign);
    assert(f.provisional.take(f.provisional.len() as int) =~= f.provisional);
    assert(f.to_visit.data.take(f.to_visit.data.len() as int) =~= f.to_visit.data);
    assert(r.to_visit == f.to_visit);
}

/// A snapshot rolls a frame and any later frame that extends it back to the
/// same frame.
pub proof fn lemma_rewind_extension(f: Frame, later: Frame, snap: SnapshotView)
    requires
        f.fits(snap),
        later.extends(f),
    ensures
        later.fits(snap),
        later.rewind(snap) == f.rewind(snap),
{
    let n = snap.assign_len as int;
    let m = snap.provisional_len as int;
    let k = snap.to_visit.back as int;
    assert(later.assign.take(n) =~= f.assign.take(n));
    assert(later.provisional.take(m) =~= f.provisional.take(m));
    assert(later.to_visit.data.take(k) =~= f.to_visit.data.take(k));
    assert(later.to_visit.restore(snap.to_visit) == f.to_visit.restore(snap.to_visit));
}

/// Rolling back twice to the same snapshot is rolling back once.
pub proof fn lemma_rewind_twice(f: Frame, snap: SnapshotView)
    requires
        f.fits(snap),
    ensures
        f.rewind(snap).fits(snap),
        f.rewind(snap).rewind(snap) == f.rewind(snap),
        f.extends(f.rewind(snap)),
{
    let r = f.rewind(snap);
    let n = snap.assign_len as int;
    let m = snap.provisional_len as int;
    let k = snap.to_visit.back as int;
    assert(r.assign.take(n) =~= r.assign);
    assert(r.provisional.take(m) =~= r.provisional);
    assert(r.to_visit.data.take(k) =~= r.to_visit.data);
    assert(r.to_visit.restore(snap.to_visit) == r.to_visit);
}

/// A stack of snapshots that is sound under a frame is sound under every
/// frame that extends it.
pub proof fn lemma_snapshots_extension(
    f: Frame,
    later: Frame,
    snapshots: Seq<SnapshotView>,
    g: GraphModel,
)
    requires
        snapshots_wf(f, snapshots, g),
        later.extends(f),
    ensures
        snapshots_wf(later, snapshots, g),
{
    if snapshots.len() > 0 {
        lemma_rewind_extension(f, later, snapshots.last());
    }
}

/// Pushing a snapshot keeps a sound state sound.
pub proof fn lemma_push_snapshot_wf(v: StateView, g: GraphModel)
    requires
        v.wf(g),
    ensures
        v.push_snapshot().wf(g),
{
    let w = v.push_snapshot();
    lemma_rewind_own_snapshot(v.frame);
    assert(w.snapshots.drop_last() =~= v.snapshots);
    assert(w.snapshots.last() == v.frame.snapshot());
}

/// Popping a snapshot keeps a sound state sound.
pub proof fn lemma_pop_snapshot_wf(v: StateView, g: GraphModel)
    requires
        v.wf(g),
    ensures
        v.pop_snapshot().wf(g),
{
    if v.snapshots.len() > 0 {
        let top = v.snapshots.last();
        lemma_rewind_twice(v.frame, top);
        lemma_snapshots_extension(v.frame.rewind(top), v.frame, v.snapshots.drop_last(), g);
    }
}

/// Rolling back to the top snapshot keeps a sound state sound.
pub proof fn lemma_reset_wf(v: StateView, g: GraphModel)
    requires
        v.wf(g),
    ensures
        v.reset(g).wf(g),
{
    if v.snapshots.len() > 0 {
        lemma_rewind_twice(v.frame, v.snapshots.last());
    }
}

/// Idempotence of reset: rolling back again, with nothing done in between,
/// changes nothing.
pub proof fn lemma_reset_idempotent(v: StateView, g: GraphModel)
    requires
        v.wf(g),
    ensures
        v.reset(g).reset(g) == v.reset(g),
{
    if v.snapshots.len() > 0 {
        lemma_rewind_twice(v.frame, v.snapshots.last());
    }
}

/// Snapshot, then any steps that keep the snapshot on top, then reset: what
/// can be observed of the state is what was there when the snapshot was
/// pushed, and the state is the one that a reset would have given right
/// after the push.
pub proof fn lemma_reset_returns_to_snapshot(pushed: StateView, later: StateView, g: GraphModel)
    requires
        pushed.wf(g),
        later.follows(pushed),
    ensures
        later.reset(g).looks_like(pushed),
        later.reset(g) == pushed.reset(g),
        later.reset(g) == pushed.rehydrated(g),
{
    let top = pushed.snapshots.last();
    lemma_rewind_own_snapshot(pushed.frame);
    lemma_rewind_extension(pushed.frame, later.frame, top);
}

/// A state that has just pushed a snapshot follows itself.
pub proof fn lemma_follows_start(v: StateView)
    ensures
        v.push_snapshot().follows(v.push_snapshot()),
{
}

/// Giving a node to the next class keeps following the snapshot.
pub proof fn lemma_follows_assigned(
    pushed: StateView,
    before: StateView,
    after: StateView,
    node: NodeId,
    g: GraphModel,
)
    requires
        before.follows(pushed),
        before.frame.assigned(node, g, after.frame),
        after.snapshots == before.snapshots,
    ensures
        after.follows(pushed),
{
}

/// A snapshot pushed and popped again, with a reset before the pop, leaves
/// a state that still follows the earlier snapshot.
pub proof fn lemma_follows_nested(pushed: StateView, before: StateView, inner: StateView, g: GraphModel)
    requires
        before.wf(g),
        before.follows(pushed),
        inner.follows(before.push_snapshot()),
    ensures
        inner.reset(g).pop_snapshot().looks_like(before),
        inner.reset(g).pop_snapshot() == before.rehydrated(g),
        inner.reset(g).pop_snapshot().follows(pushed),
{
    lemma_push_snapshot_wf(before, g);
    lemma_reset_returns_to_snapshot(before.push_snapshot(), inner, g);
    assert(before.push_snapshot().snapshots.drop_last() =~= before.snapshots);
}

/// In a complete state every provisional entry is committed: the committed
/// assignment has an entry for each class that was ever given a node.
pub proof fn lemma_complete_covers(f: Frame, g: GraphModel, class: ClassId)
    requires
        f.wf(g),
        f.is_complete(),
        has_key(f.provisional, class),
    ensures
        has_key(f.assign, class),
{
    let a = f.assign;
    let p = f.provisional;
    assert(a.len() == p.len());
    if !has_key(a, class) {
        // The keys of `a` are keys of `p` other than `class`: too few for
        // `a` to be as long as `p`.
        let i = choose|i: int| key_at(p, i, class);
        let q = p.remove(i);
        assert(unique_keys(q)) by {
            assert forall|x: int, y: int| 0 <= x < y < q.len() implies (#[trigger] q[x]).0 != (
            #[trigger] q[y]).0 by {
                let x2 = if x < i { x } else { x + 1 };
                let y2 = if y < i { y } else { y + 1 };
                assert(q[x] == p[x2]);
                assert(q[y] == p[y2]);
                assert(p[x2].0 != p[y2].0);
            }
        }
        assert(entries_within(a, q)) by {
            assert forall|x: int| 0 <= x < a.len() implies q.contains(#[trigger] a[x]) by {
                assert(p.contains(a[x]));
                let y = choose|y: int| 0 <= y < p.len() && p[y] == a[x];
                if y == i {
                    assert(key_at(a, x, class));
                }
                let y2 = if y < i { y } else { y - 1 };
                assert(q[y2] == p[y]);
            }
        }
        lemma_keys_bound(a, q);
    }
}


/// The classes of the provisional entries from position `from` on that are
/// not committed.
pub open spec fn unreplayed(
    prov: Seq<(ClassId, NodeId)>,
    assign: Seq<(ClassId, NodeId)>,
    from: int,
) -> Set<ClassId> {
    Set::new(
        |c: ClassId|
            exists|j: int| from <= j < prov.len() && (#[trigger] prov[j]).0 == c && !has_key(assign, c),
    )
}

/// The invariant of a frame between the moment at which `class` was popped
/// from the queue and the moment at which it gets its provisional entry.
pub open spec fn awaiting(f: Frame, class: ClassId) -> bool {
    &&& f.to_visit.front <= f.to_visit.data.len()
    &&& f.to_visit.live().no_duplicates()
    &&& f.to_visit_set.remove(class) == f.to_visit.live().to_set()
    &&& forall|c: ClassId| #[trigger]
        f.to_visit_set.contains(c) ==> !has_key(f.provisional, c)
    &&& f.to_visit.front >= 1
    &&& f.to_visit.data[f.to_visit.front - 1] == class
    &&& forall|i: int|
        0 <= i < f.to_visit.front - 1 ==> has_key(f.provisional, #[trigger] f.to_visit.data[i])
}

/// One more child class: what `new_visits` makes of a prefix of the children
/// that is one longer.
pub proof fn lemma_new_visits_step(
    children: Seq<ClassId>,
    k: int,
    prov: Seq<(ClassId, NodeId)>,
    queued: Set<ClassId>,
)
    requires
        0 <= k < children.len(),
    ensures
        new_visits(children.take(k + 1), prov, queued) == ({
            let before = new_visits(children.take(k), prov, queued);
            if has_key(prov, children[k]) || queued.contains(children[k]) || before.contains(
                children[k],
            ) {
                before
            } else {
                before.push(children[k])
            }
        }),
{
    assert(children.take(k + 1).drop_last() =~= children.take(k));
    assert(children.take(k + 1).last() == children[k]);
}

/// Appending a class that is not queued keeps the queue's invariant.
pub proof fn lemma_queue_push(q: QueueModel<ClassId>, set: Set<ClassId>, class: ClassId)
    requires
        q.front <= q.data.len(),
        q.live().no_duplicates(),
        set == q.live().to_set(),
        !set.contains(class),
    ensures
        q.push_back(class).live().no_duplicates(),
        set.insert(class) == q.push_back(class).live().to_set(),
{
    let live = q.live();
    let live2 = q.push_back(class).live();
    assert(live2 =~= live.push(class));
    assert forall|i: int, j: int| 0 <= i < live2.len() && 0 <= j < live2.len() && i != j implies live2[i]
        != live2[j] by {
        if i < live.len() && j < live.len() {
            assert(live[i] != live[j]);
        } else if i < live.len() {
            assert(live.contains(live[i]));
        } else {
            assert(live.contains(live[j]));
        }
    }
    live.lemma_push_to_set_commute(class);
    assert(set.insert(class) =~= live2.to_set());
}

/// In a sound frame that is complete, no class is at the front of the queue.
pub proof fn lemma_complete_has_no_front(f: Frame, g: GraphModel)
    requires
        f.wf(g),
        f.is_complete(),
    ensures
        !f.to_visit.has_front(),
{
    if f.to_visit.has_front() {
        let live = f.to_visit.live();
        assert(live[0] == f.next_class());
        assert(live.contains(live[0]));
        assert(f.to_visit_set.contains(live[0]));
    }
}

impl Frame {
    /// The two frames hold the same, but for the order of their committed
    /// entries: the same provisional entries, the same queue, the same set
    /// and count, and the same classes committed to the same nodes.
    pub open spec fn alike(self, other: Frame) -> bool {
        &&& self.provisional == other.provisional
        &&& self.to_visit == other.to_visit
        &&& self.to_visit_set == other.to_visit_set
        &&& self.n_remaining == other.n_remaining
        &&& forall|class: ClassId, n: NodeId|
            has_entry(self.assign, class, n) <==> has_entry(other.assign, class, n)
    }
}

/// Whatever the dependency index and the order of the committed entries,
/// giving a node to the next class has one outcome, but for that order:
/// from frames that are alike it leads to frames that are alike.
pub proof fn lemma_alike_step(
    first: Frame,
    second: Frame,
    node: NodeId,
    g: GraphModel,
    first_after: Frame,
    second_after: Frame,
)
    requires
        first.alike(second),
        first.assigned(node, g, first_after),
        second.assigned(node, g, second_after),
        first_after.wf(g),
        second_after.wf(g),
    ensures
        first_after.alike(second_after),
{
    let a = first_after.assign;
    let b = second_after.assign;
    let prov = first_after.provisional;
    assert(first_after.to_visit == second_after.to_visit);
    assert forall|class: ClassId, n: NodeId| has_entry(a, class, n) implies has_entry(
        b,
        class,
        n,
    ) by {
        lemma_committed_as_well(a, b, prov, g, class, n);
    }
    assert forall|class: ClassId, n: NodeId| has_entry(b, class, n) implies has_entry(
        a,
        class,
        n,
    ) by {
        lemma_committed_as_well(b, a, prov, g, class, n);
    }
    assert forall|i: int| 0 <= i < a.len() implies has_key(b, (#[trigger] a[i]).0) by {
        assert(a.contains(a[i]));
        lemma_entry_has_key(b, a[i].0, a[i].1);
    }
    assert forall|i: int| 0 <= i < b.len() implies has_key(a, (#[trigger] b[i]).0) by {
        assert(b.contains(b[i]));
        lemma_entry_has_key(a, b[i].0, b[i].1);
    }
    lemma_keys_within_len(a, b);
    lemma_keys_within_len(b, a);
}

/// Giving a node to the next class has one outcome, but for the order of the
/// committed entries: any two sound frames that can come of it have the same
/// provisional entries, the same queue, the same set and the same count, and
/// commit the same classes to the same nodes.
pub proof fn lemma_assigned_is_determined(
    before: Frame,
    node: NodeId,
    g: GraphModel,
    first: Frame,
    second: Frame,
)
    requires
        before.assigned(node, g, first),
        before.assigned(node, g, second),
        first.wf(g),
        second.wf(g),
    ensures
        first.alike(second),
{
    lemma_alike_step(before, before, node, g, first, second);
}

/// Step `k` of a run: frame `k` of `trace` gets node `k` of `nodes` for its
/// next class, which gives frame `k + 1`.
pub open spec fn is_step(trace: Seq<Frame>, nodes: Seq<NodeId>, g: GraphModel, k: int) -> bool {
    trace[k].assigned(nodes[k], g, trace[k + 1])
}

/// `trace` is a run of sound frames in which the nodes of `nodes` are given,
/// one after the other, to the class that is next.
pub open spec fn is_run(trace: Seq<Frame>, nodes: Seq<NodeId>, g: GraphModel) -> bool {
    &&& trace.len() == nodes.len() + 1
    &&& forall|k: int| 0 <= k < trace.len() ==> (#[trigger] trace[k]).wf(g)
    &&& forall|k: int| 0 <= k < nodes.len() ==> #[trigger] is_step(trace, nodes, g, k)
}

/// A state behaves as what can be observed of it, whatever its dependency
/// index: two runs that give the same nodes, from frames that are alike,
/// pass frames that are alike. So after a reset, which gives back the frame
/// of the snapshot, any nodes meet the same classes in the same order, the
/// queue runs dry at the same point, and the same classes are committed to
/// the same nodes as from the state that the snapshot was taken of; only the
/// order of the committed entries may differ.
pub proof fn lemma_runs_stay_alike(
    first: Seq<Frame>,
    second: Seq<Frame>,
    nodes: Seq<NodeId>,
    g: GraphModel,
    k: int,
)
    requires
        is_run(first, nodes, g),
        is_run(second, nodes, g),
        first[0].alike(second[0]),
        0 <= k <= nodes.len(),
    ensures
        first[k].alike(second[k]),
        first[k].is_complete() <==> second[k].is_complete(),
        first[k].to_visit.has_front() <==> second[k].to_visit.has_front(),
        first[k].next_class() == second[k].next_class(),
    decreases k,
{
    if k > 0 {
        lemma_runs_stay_alike(first, second, nodes, g, k - 1);
        assert(is_step(first, nodes, g, k - 1));
        assert(is_step(second, nodes, g, k - 1));
        assert(first[k].wf(g));
        assert(second[k].wf(g));
        lemma_alike_step(first[k - 1], second[k - 1], nodes[k - 1], g, first[k], second[k]);
    }
}

/// An entry of one sound selection of the provisional entries is an entry of
/// any other.
proof fn lemma_committed_as_well(
    first: Seq<(ClassId, NodeId)>,
    second: Seq<(ClassId, NodeId)>,
    prov: Seq<(ClassId, NodeId)>,
    g: GraphModel,
    class: ClassId,
    node: NodeId,
)
    requires
        commits_ok(first, prov, g),
        stuck(first, prov, g),
        commits_ok(second, prov, g),
        stuck(second, prov, g),
        has_entry(first, class, node),
    ensures
        has_entry(second, class, node),
{
    lemma_entry_has_key(first, class, node);
    lemma_committed_classes_are_determined(first, second, prov, g, class);
    let j = choose|j: int| key_at(second, j, class);
    assert(prov.contains(second[j]));
    let i = choose|i: int| 0 <= i < first.len() && first[i] == (class, node);
    assert(prov.contains(first[i]));
    lemma_entry_unique(prov, class, node, second[j].1);
    assert(second[j] == (class, node));
}

/// Every child class is among the classes that the children add to the
/// queue, unless it has a provisional node or is queued already.
pub proof fn lemma_new_visits_cover(
    children: Seq<ClassId>,
    prov: Seq<(ClassId, NodeId)>,
    queued: Set<ClassId>,
    k: int,
)
    requires
        0 <= k < children.len(),
    ensures
        has_key(prov, children[k]) || queued.contains(children[k]) || new_visits(
            children,
            prov,
            queued,
        ).contains(children[k]),
    decreases children.len(),
{
    let before = new_visits(children.drop_last(), prov, queued);
    let all = new_visits(children, prov, queued);
    if k < children.len() - 1 {
        lemma_new_visits_cover(children.drop_last(), prov, queued, k);
        assert(children.drop_last()[k] == children[k]);
        if before.contains(children[k]) {
            let m = choose|m: int| 0 <= m < before.len() && before[m] == children[k];
            assert(all[m] == children[k]);
        }
    } else {
        assert(children.last() == children[k]);
        if !(has_key(prov, children[k]) || queued.contains(children[k]) || before.contains(
            children[k],
        )) {
            assert(all[before.len() as int] == children[k]);
        }
    }
}

/// The classes that the children add to the queue are child classes.
pub proof fn lemma_new_visits_are_children(
    children: Seq<ClassId>,
    prov: Seq<(ClassId, NodeId)>,
    queued: Set<ClassId>,
    m: int,
)
    requires
        0 <= m < new_visits(children, prov, queued).len(),
    ensures
        children.contains(new_visits(children, prov, queued)[m]),
    decreases children.len(),
{
    let before = new_visits(children.drop_last(), prov, queued);
    if children.len() > 0 {
        if m < before.len() {
            lemma_new_visits_are_children(children.drop_last(), prov, queued, m);
            let k = choose|k: int|
                0 <= k < children.drop_last().len() && children.drop_last()[k] == before[m];
            assert(children[k] == before[m]);
        } else {
            assert(children[children.len() - 1] == children.last());
        }
    }
}

/// Which class is next after a node has been given to a class is a matter of
/// the queue before and of the node, whatever is committed on the way.
pub proof fn lemma_assign_advances_queue(v: StateView, node: NodeId, g: GraphModel)
    ensures
        v.assign(node, g).frame.queue_view() == v.frame.queue_view().advance(node, g),
{
}

} // verus!

//! Data-structures for incrementally maintaining a partial assignment of
//! e-nodes to e-classes.
//!
//! Extraction proceeds top-down, starting at the root e-class and then
//! iteratively assigning nodes to classes that have been discovered, and then
//! discovering more classes to assign based on the nodes chosen in the past.
//!
//! The main [`ExtractionState`] maintains several layers of data:
//!
//!   * The current partial assignment of nodes to classes. This only includes
//!     nodes whose children are also assigned.
//!   * The pending state, which includes a provisional assignment of nodes to
//!     classes, whose dependencies may not be satisfied yet, the dependency
//!     index that tells when they are, and a queue of classes to visit.
//!   * A stack of snapshots of the state, used to backtrack.
//!
//! A cyclic choice of nodes never resolves all of its dependencies, so it
//! never becomes a complete assignment.

use crate::assignment::{
    assignment_contains_key, assignment_entries, assignment_get_index, assignment_insert,
    assignment_len, assignment_new, assignment_truncate, entries_within, has_key, key_at,
    lemma_entry_has_key, lemma_has_key_push, truncated, Assignment, ClassId, NodeId,
};
use crate::backtrack_queue::{BacktrackQueue, QueueModel, QueueSnapshot};
use crate::cascade::{rehydrate, track, Watcher};
use crate::deps::{
    index_ok, is_unassigned, lemma_dispatch, lemma_index_stuck, lemma_keys_bound,
    lemma_same_open, lemma_track_waits, no_buckets, Deps,
};
use crate::egraph::{Egraph, EgraphTotalCost, GraphModel, Utility};
use crate::extraction::{chosen_from_members, resolved};
use crate::ground::{is_safe_ground, lemma_dispatch_stays_within, lemma_safe_ground_completes};
use crate::fx::{class_set_insert, class_set_remove};
use crate::rng::pick_below;
use crate::state_model::{
    awaiting, lemma_complete_has_no_front, lemma_new_visits_are_children,
    lemma_new_visits_cover, lemma_new_visits_step,
    lemma_pop_snapshot_wf,
    lemma_push_snapshot_wf, lemma_queue_push, lemma_reset_returns_to_snapshot, lemma_reset_wf,
    lemma_snapshots_extension, new_visits, snapshots_wf, unreplayed, Frame,
    SnapshotView, StateView,
};
use fxhash::FxHashSet;
use rand::rngs::StdRng;
use vstd::prelude::*;

verus! {

/// The part of an extraction state that is not committed: the provisional
/// assignment with its dependency index, and the classes to visit.
pub struct PendingState {
    /// A provisional assignment from classes to nodes, includes nodes whose
    /// children have not been resolved.
    provisional_assign: Assignment,
    /// The number of provisional assignments that are not final. (Entries
    /// are not removed from `provisional_assign` when they become final, to
    /// make backtracking easier.)
    n_remaining: usize,
    /// A data-structure tracking dependencies for provisional assignments.
    /// Once all dependencies are satisfied, the assignment is final.
    deps: Deps,
    /// A queue of classes to visit, along with a set to prevent duplicates.
    to_visit: BacktrackQueue<ClassId>,
    to_visit_set: FxHashSet<ClassId>,
}

/// What a snapshot records of the pending state.
pub struct PendingStateSnapshot {
    assign_len: usize,
    n_remaining: usize,
    to_visit: QueueSnapshot,
}

/// What a snapshot records of an extraction state.
pub struct StateSnapshot {
    assign_len: usize,
    pending: PendingStateSnapshot,
}

/// A partial assignment of nodes to classes that grows by one class at a
/// time and can be rolled back to a snapshot.
pub struct ExtractionState {
    assign: Assignment,
    pending: PendingState,
    snapshots: Vec<StateSnapshot>,
}

impl View for StateSnapshot {
    type V = SnapshotView;

    closed spec fn view(&self) -> SnapshotView {
        SnapshotView {
            assign_len: self.assign_len as nat,
            provisional_len: self.pending.assign_len as nat,
            n_remaining: self.pending.n_remaining as nat,
            to_visit: self.pending.to_visit@,
        }
    }
}

impl PendingState {
    /// The frame that this pending state forms with a committed assignment.
    pub closed spec fn frame(&self, assign: Seq<(ClassId, NodeId)>) -> Frame {
        Frame {
            assign,
            provisional: assignment_entries(self.provisional_assign),
            n_remaining: self.n_remaining as nat,
            to_visit: self.to_visit@,
            to_visit_set: self.to_visit_set@,
        }
    }

    /// The dependency index, as watchers.
    pub closed spec fn watchers(&self) -> Map<ClassId, Seq<Watcher>> {
        self.deps@
    }

    /// The dependency index is sound for this pending state and `assign`.
    pub closed spec fn index_wf(&self, assign: Seq<(ClassId, NodeId)>, g: GraphModel) -> bool {
        index_ok(
            self.deps.buckets(),
            assign,
            assignment_entries(self.provisional_assign),
            g,
            Set::empty(),
            None,
        )
    }

    /// Add `class` to the classes to visit, unless it has a provisional node
    /// or is among them already.
    fn push_to_visit(&mut self, class: ClassId)
        ensures
            final(self).frame(Seq::empty()).provisional == old(self).frame(
                Seq::empty(),
            ).provisional,
            final(self).n_remaining == old(self).n_remaining,
            final(self).deps == old(self).deps,
            has_key(assignment_entries(old(self).provisional_assign), class) || old(
                self,
            ).to_visit_set@.contains(class) ==> final(self).to_visit@ == old(self).to_visit@
                && final(self).to_visit_set@ == old(self).to_visit_set@,
            !has_key(assignment_entries(old(self).provisional_assign), class) && !old(
                self,
            ).to_visit_set@.contains(class) ==> final(self).to_visit@ == old(
                self,
            ).to_visit@.push_back(class) && final(self).to_visit_set@ == old(
                self,
            ).to_visit_set@.insert(class),
    {
        if !assignment_contains_key(&self.provisional_assign, class) && class_set_insert(
            &mut self.to_visit_set,
            class,
        ) {
            self.to_visit.push_back(class);
        } else {
            assert(self.to_visit_set@ =~= old(self).to_visit_set@);
        }
    }

    /// The lengths and the counter that describe the pending state as it is.
    fn save_snapshot(&self) -> (snap: PendingStateSnapshot)
        ensures
            snap.assign_len == assignment_entries(self.provisional_assign).len(),
            snap.n_remaining == self.n_remaining,
            snap.to_visit@ == self.to_visit@.snapshot(),
    {
        PendingStateSnapshot {
            assign_len: assignment_len(&self.provisional_assign),
            n_remaining: self.n_remaining,
            to_visit: self.to_visit.snapshot(),
        }
    }
}

impl Default for PendingState {
    fn default() -> (pending: Self)
        ensures
            pending.frame(Seq::empty()) == (Frame {
                assign: Seq::empty(),
                provisional: Seq::empty(),
                n_remaining: 0,
                to_visit: QueueModel::empty(),
                to_visit_set: Set::empty(),
            }),
            pending.watchers() == Map::<ClassId, Seq<Watcher>>::empty(),
            forall|g: GraphModel| pending.index_wf(Seq::empty(), g),
    {
        let pending = Self {
            provisional_assign: assignment_new(),
            deps: Deps::default(),
            to_visit: BacktrackQueue::default(),
            to_visit_set: FxHashSet::default(),
            n_remaining: 0,
        };
        assert(pending.deps.buckets() == no_buckets());
        pending
    }
}


impl PendingState {
    /// Bring the pending state back to what `snapshot` recorded, and rebuild
    /// the set of classes to visit and the dependency index for it.
    /// `full_assign` is the committed assignment, rolled back already.
    fn restore<E: Egraph>(
        &mut self,
        snapshot: &PendingStateSnapshot,
        full_assign: &mut Assignment,
        egraph: &E,
    )
        requires
            old(self).rolled_back(assignment_entries(*old(full_assign)), *snapshot).wf(
                egraph.model(),
            ),
        ensures
            final(self).frame(assignment_entries(*final(full_assign))) == old(self).rolled_back(
                assignment_entries(*old(full_assign)),
                *snapshot,
            ),
            assignment_entries(*final(full_assign)) == assignment_entries(*old(full_assign)),
            final(self).index_wf(assignment_entries(*final(full_assign)), egraph.model()),
            final(self).watchers() == rehydrate(
                final(self).frame(Seq::empty()).provisional,
                assignment_entries(*final(full_assign)),
                egraph.model(),
                final(self).frame(Seq::empty()).provisional.len(),
            ),
    {
        let ghost g = egraph.model();
        let ghost a = assignment_entries(*full_assign);
        let ghost target = self.rolled_back(a, *snapshot);
        assignment_truncate(&mut self.provisional_assign, snapshot.assign_len);
        self.n_remaining = snapshot.n_remaining;
        self.to_visit.restore(&snapshot.to_visit);
        self.to_visit_set.clear();
        let live = self.to_visit.iter();
        let mut k: usize = 0;
        while k < live.len()
            invariant
                k <= live.len(),
                live@ == target.to_visit.live(),
                assignment_entries(self.provisional_assign) == target.provisional,
                self.n_remaining == target.n_remaining,
                self.to_visit@ == target.to_visit,
                self.to_visit_set@ == live@.take(k as int).to_set(),
            decreases live.len() - k,
        {
            proof {
                live@.take(k as int).lemma_push_to_set_commute(live@[k as int]);
                assert(live@.take(k as int).push(live@[k as int]) =~= live@.take(k + 1));
            }
            class_set_insert(&mut self.to_visit_set, live[k]);
            k += 1;
        }
        assert(live@.take(k as int) =~= live@);
        self.deps.clear();
        let ghost p = assignment_entries(self.provisional_assign);
        assert(p == target.provisional);
        let n = assignment_len(&self.provisional_assign);
        let mut i: usize = 0;
        proof {
            assert(index_ok(self.deps.buckets(), a, p, g, unreplayed(p, a, 0), None)) by {
                assert forall|j: int|
                    0 <= j < p.len() && !has_key(a, (#[trigger] p[j]).0) implies unreplayed(
                    p,
                    a,
                    0,
                ).contains(p[j].0) by {}
            }
        }
        while i < n
            invariant
                i <= n,
                n == p.len(),
                g == egraph.model(),
                a == assignment_entries(*full_assign),
                p == assignment_entries(self.provisional_assign),
                target.wf(g),
                target.assign == a,
                target.provisional == p,
                self.n_remaining == target.n_remaining,
                self.to_visit@ == target.to_visit,
                self.to_visit_set@ == target.to_visit_set,
                index_ok(self.deps.buckets(), a, p, g, unreplayed(p, a, i as int), None),
                self.deps@ == rehydrate(p, a, g, i as nat),
            decreases n - i,
        {
            let (class, node) = assignment_get_index(&self.provisional_assign, i).unwrap();
            let ghost open_after = unreplayed(p, a, i + 1);
            proof {
                assert(p[i as int] == (class, node));
                assert(!open_after.contains(class)) by {
                    if open_after.contains(class) {
                        let j = choose|j: int|
                            i + 1 <= j < p.len() && (#[trigger] p[j]).0 == class && !has_key(
                                a,
                                class,
                            );
                        assert(p[i as int].0 != p[j].0);
                    }
                }
                assert forall|c: ClassId| c != class implies (open_after.contains(c)
                    <==> unreplayed(p, a, i as int).contains(c)) by {
                    if unreplayed(p, a, i as int).contains(c) {
                        let j = choose|j: int|
                            i <= j < p.len() && (#[trigger] p[j]).0 == c && !has_key(a, c);
                        assert(i + 1 <= j);
                    }
                    if open_after.contains(c) {
                        let j = choose|j: int|
                            i + 1 <= j < p.len() && (#[trigger] p[j]).0 == c && !has_key(a, c);
                        assert(i <= j);
                    }
                }
            }
            if assignment_contains_key(full_assign, class) {
                proof {
                    assert(!unreplayed(p, a, i as int).contains(class));
                    lemma_same_open(
                        self.deps.buckets(),
                        a,
                        p,
                        g,
                        unreplayed(p, a, i as int),
                        open_after,
                        None,
                    );
                }
            } else {
                proof {
                    assert(unreplayed(p, a, i as int).contains(class));
                    lemma_same_open(
                        self.deps.buckets(),
                        a,
                        p,
                        g,
                        unreplayed(p, a, i as int),
                        open_after.insert(class),
                        None,
                    );
                    assert(p.contains(p[i as int]));
                    assert(!resolved(a, (g.children)(node)));
                    lemma_keys_bound(a, p);
                    lemma_track_waits(
                        self.deps@,
                        a,
                        class,
                        node,
                        (g.children)(node),
                        (p.len() - a.len()) as nat,
                    );
                }
                let ghost index = self.deps@;
                let committed = self.deps.track_pending_assignment(
                    node,
                    class,
                    full_assign,
                    egraph.children(&node),
                    Ghost(p),
                    Ghost(g),
                    Ghost(open_after),
                );
                // Replaying a provisional entry never commits anything: what
                // could be committed was, before the snapshot was taken.
                assert(committed == 0);
                assert(assignment_entries(*full_assign) =~= a);
                assert(track(
                    index,
                    a,
                    class,
                    node,
                    (g.children)(node),
                    (p.len() - a.len()) as nat,
                ) == (self.deps@, a));
            }
            i += 1;
        }
        proof {
            lemma_same_open(
                self.deps.buckets(),
                a,
                p,
                g,
                unreplayed(p, a, n as int),
                Set::empty(),
                None,
            );
        }
    }

    /// The frame that rolling back to `snapshot` gives, for a committed
    /// assignment that is rolled back already.
    pub closed spec fn rolled_back(
        &self,
        assign: Seq<(ClassId, NodeId)>,
        snapshot: PendingStateSnapshot,
    ) -> Frame {
        let to_visit = self.to_visit@.restore(snapshot.to_visit@);
        Frame {
            assign,
            provisional: truncated(
                assignment_entries(self.provisional_assign),
                snapshot.assign_len as nat,
            ),
            n_remaining: snapshot.n_remaining as nat,
            to_visit,
            to_visit_set: to_visit.live().to_set(),
        }
    }
}


impl View for ExtractionState {
    type V = StateView;

    closed spec fn view(&self) -> StateView {
        StateView {
            frame: self.pending.frame(assignment_entries(self.assign)),
            watchers: self.pending.deps@,
            snapshots: self.snapshots@.map_values(|s: StateSnapshot| s@),
        }
    }
}

/// A class that awaits a node, and the state that will take the node.
pub struct AssignHandle<'a> {
    /// The state that will take the node.
    pub state: &'a mut ExtractionState,
}

impl ExtractionState {
    /// The invariant of an extraction state for the graph `g`.
    pub closed spec fn wf(&self, g: GraphModel) -> bool {
        self@.wf(g) && self.pending.index_wf(assignment_entries(self.assign), g)
    }

    /// A state in which nothing is assigned and `root` awaits a node, with
    /// one snapshot of that state on its stack.
    pub fn new(root: ClassId) -> (state: Self)
        ensures
            state@ == StateView::initial(root),
            forall|g: GraphModel| state.wf(g),
    {
        let mut res = Self {
            assign: assignment_new(),
            pending: PendingState::default(),
            snapshots: Vec::new(),
        };
        let ghost fresh = res.pending;
        res.pending.push_to_visit(root);
        proof {
            assert(res@.snapshots =~= Seq::empty());
            assert(res@.frame.to_visit_set =~= set![root]);
            assert(res@.frame.to_visit.data =~= seq![root]);
            assert(res@.frame == Frame::initial(root));
            let live = res@.frame.to_visit.live();
            assert(live =~= seq![root]);
            assert(live.to_set() =~= set![root]) by {
                assert(live[0] == root);
                assert forall|c: ClassId| live.to_set().contains(c) <==> set![root].contains(
                    c,
                ) by {
                    if live.contains(c) {
                        let i = choose|i: int| 0 <= i < live.len() && live[i] == c;
                    }
                }
            }
            assert forall|g: GraphModel| res.wf(g) by {
                assert(res@.frame.queue_wf());
                assert(res@.frame.commits_wf(g));
                assert(fresh.index_wf(Seq::empty(), g));
                assert(res.pending.index_wf(Seq::empty(), g));
            }
        }
        let ghost before = res;
        res.push_snapshot();
        proof {
            assert(res@.snapshots =~= seq![Frame::initial(root).snapshot()]);
            assert forall|g: GraphModel| res.wf(g) by {
                assert(before.wf(g));
            }
        }
        res
    }

    /// Record the current state on top of the stack of snapshots.
    pub fn push_snapshot(&mut self)
        ensures
            final(self)@ == old(self)@.push_snapshot(),
            forall|g: GraphModel| #[trigger] old(self).wf(g) ==> final(self).wf(g),
    {
        let snap = StateSnapshot {
            assign_len: assignment_len(&self.assign),
            pending: self.pending.save_snapshot(),
        };
        self.snapshots.push(snap);
        proof {
            assert(snap@ == old(self)@.frame.snapshot());
            assert(self@.snapshots =~= old(self)@.snapshots.push(snap@));
            assert forall|g: GraphModel| #[trigger] old(self).wf(g) implies self.wf(g) by {
                lemma_push_snapshot_wf(old(self)@, g);
            }
        }
    }

    /// Roll the state back to the snapshot on top of the stack, which stays
    /// there. Without a snapshot, nothing happens.
    pub fn reset<E: Egraph>(&mut self, egraph: &E)
        requires
            old(self).wf(egraph.model()),
        ensures
            final(self)@ == old(self)@.reset(egraph.model()),
            final(self).wf(egraph.model()),
    {
        let n = self.snapshots.len();
        if n == 0 {
            return ;
        }
        proof {
            let g = egraph.model();
            let top = old(self)@.snapshots.last();
            assert(top == self.snapshots@[n - 1]@);
            assert(old(self)@.frame.fits(top));
            lemma_reset_wf(old(self)@, g);
        }
        assignment_truncate(&mut self.assign, self.snapshots[n - 1].assign_len);
        self.pending.restore(&self.snapshots[n - 1].pending, &mut self.assign, egraph);
    }

    /// Discard the snapshot on top of the stack. The state itself stays as
    /// it is.
    pub fn pop_snapshot(&mut self)
        ensures
            final(self)@ == old(self)@.pop_snapshot(),
            forall|g: GraphModel| #[trigger] old(self).wf(g) ==> final(self).wf(g),
    {
        self.snapshots.pop();
        proof {
            if old(self)@.snapshots.len() > 0 {
                assert(self@.snapshots =~= old(self)@.snapshots.drop_last());
            } else {
                assert(self@.snapshots =~= old(self)@.snapshots);
            }
            assert forall|g: GraphModel| #[trigger] old(self).wf(g) implies self.wf(g) by {
                lemma_pop_snapshot_wf(old(self)@, g);
            }
        }
    }

    /// The committed assignment, if it is complete: every provisional entry
    /// is committed and no class awaits a node.
    pub fn complete_assignment(&self) -> (done: Option<&Assignment>)
        ensures
            done is Some <==> self@.frame.is_complete(),
            done is Some ==> assignment_entries(*done->Some_0) == self@.frame.assign,
    {
        if self.pending.n_remaining == 0 && self.pending.to_visit_set.is_empty() {
            Some(&self.assign)
        } else {
            None
        }
    }

    /// Give `node` to `class`, which was just popped from the queue: enter
    /// it in the provisional assignment, commit what can be committed now,
    /// and queue the child classes of `node` that are new.
    fn provisional_assign<E: Egraph>(&mut self, class: ClassId, node: NodeId, egraph: &E)
        requires
            awaiting(old(self)@.frame, class),
            old(self)@.frame.to_visit_set.contains(class),
            old(self)@.frame.commits_wf(egraph.model()),
            old(self)@.frame.children_dispatched(egraph.model()),
            old(self)@.frame.traced(egraph.model()),
            snapshots_wf(old(self)@.frame, old(self)@.snapshots, egraph.model()),
            old(self).pending.index_wf(old(self)@.frame.assign, egraph.model()),
        ensures
            final(self).wf(egraph.model()),
            final(self)@.snapshots == old(self)@.snapshots,
            final(self)@.frame.provisional == old(self)@.frame.provisional.push((class, node)),
            old(self)@.frame.assign.is_prefix_of(final(self)@.frame.assign),
            final(self)@.frame.to_visit.front == old(self)@.frame.to_visit.front,
            final(self)@.frame.to_visit.data == old(self)@.frame.to_visit.data + new_visits(
                (egraph.model().children)(node),
                final(self)@.frame.provisional,
                old(self)@.frame.to_visit_set.remove(class),
            ),
            if resolved(old(self)@.frame.assign, (egraph.model().children)(node)) {
                &&& final(self)@.frame.assign.len() > old(self)@.frame.assign.len()
                &&& final(self)@.frame.assign[old(self)@.frame.assign.len() as int] == (class, node)
            } else {
                final(self)@.frame.assign == old(self)@.frame.assign
            },
            (final(self)@.frame, final(self)@.watchers) == old(self)@.frame.dispatched(
                old(self)@.watchers,
                class,
                node,
                egraph.model(),
            ),
    {
        let ghost g = egraph.model();
        let ghost f0 = self@.frame;
        let ghost snaps = self@.snapshots;
        let ghost seen = f0.to_visit_set.remove(class);
        let ghost p = f0.provisional.push((class, node));
        let ghost index0 = self.pending.deps@;
        proof {
            lemma_dispatch(self.pending.deps.buckets(), f0.assign, f0.provisional, g, class, node);
            lemma_keys_bound(f0.assign, f0.provisional);
        }
        class_set_remove(&mut self.pending.to_visit_set, class);
        assignment_insert(&mut self.pending.provisional_assign, class, node);
        self.pending.n_remaining += 1;
        let children = egraph.children(&node);
        let committed = self.pending.deps.track_pending_assignment(
            node,
            class,
            &mut self.assign,
            children,
            Ghost(p),
            Ghost(g),
            Ghost(Set::empty()),
        );
        let ghost a = assignment_entries(self.assign);
        let ghost index = self.pending.deps@;
        proof {
            lemma_keys_bound(a, p);
            lemma_index_stuck(self.pending.deps.buckets(), a, p, g);
            if committed == 0 {
                assert(a =~= f0.assign);
            }
            assert(track(index0, f0.assign, class, node, children@, p.len()) == (index, a));
        }
        self.pending.n_remaining -= committed;
        let ghost kids = children@;
        let ghost mid = self@.frame;
        proof {
            assert(mid.commits_wf(g));
            assert forall|c: ClassId| #[trigger] seen.contains(c) implies !has_key(p, c) by {
                lemma_has_key_push(f0.provisional, (class, node), c);
            }
            assert(new_visits(kids.take(0), p, seen) =~= Seq::empty());
            assert(f0.to_visit.data + Seq::<ClassId>::empty() =~= f0.to_visit.data);
        }
        let mut k: usize = 0;
        while k < children.len()
            invariant
                k <= children.len(),
                kids == children@,
                self.snapshots == old(self).snapshots,
                self.pending.deps@ == index,
                assignment_entries(self.assign) == a,
                self@.frame.assign == a,
                self@.frame.provisional == p,
                self@.frame.n_remaining == mid.n_remaining,
                self.pending.index_wf(a, g),
                entries_within(a, p),
                self@.frame.to_visit.front == f0.to_visit.front,
                self@.frame.to_visit.front <= self@.frame.to_visit.data.len(),
                self@.frame.to_visit.data == f0.to_visit.data + new_visits(
                    kids.take(k as int),
                    p,
                    seen,
                ),
                self@.frame.to_visit.live().no_duplicates(),
                self@.frame.to_visit_set == self@.frame.to_visit.live().to_set(),
                self@.frame.to_visit_set == seen.union(new_visits(kids.take(k as int), p, seen).to_set()),
                forall|c: ClassId| #[trigger]
                    self@.frame.to_visit_set.contains(c) ==> !has_key(p, c),
            decreases children.len() - k,
        {
            let child = children[k];
            let ghost before = new_visits(kids.take(k as int), p, seen);
            let ghost q = self@.frame.to_visit;
            let ghost set = self@.frame.to_visit_set;
            proof {
                lemma_new_visits_step(kids, k as int, p, seen);
                if has_key(a, child) {
                    let i = choose|i: int| key_at(a, i, child);
                    assert(p.contains(a[i]));
                    lemma_entry_has_key(p, a[i].0, a[i].1);
                }
                if !has_key(p, child) && !set.contains(child) {
                    lemma_queue_push(q, set, child);
                    before.lemma_push_to_set_commute(child);
                    assert(set.insert(child) =~= seen.union(before.push(child).to_set()));
                    assert(q.push_back(child).data =~= f0.to_visit.data + before.push(child));
                }
            }
            if is_unassigned(&self.assign, child) {
                self.pending.push_to_visit(child);
            }
            k += 1;
        }
        proof {
            assert(kids.take(k as int) =~= kids);
            let f = self@.frame;
            assert forall|i: int| 0 <= i < f.to_visit.front implies has_key(
                p,
                #[trigger] f.to_visit.data[i],
            ) by {
                assert(f.to_visit.data[i] == f0.to_visit.data[i]);
                lemma_has_key_push(f0.provisional, (class, node), f0.to_visit.data[i]);
            }
            assert(f.queue_wf());
            assert(f.commits_wf(g));
            assert forall|i: int, k: int|
                0 <= i < p.len() && 0 <= k < (g.children)(p[i].1).len() implies #[trigger]
                f.child_is_dispatched(g, i, k) by {
                let child = (g.children)(p[i].1)[k];
                let visits = new_visits(kids, p, seen);
                if i < f0.provisional.len() {
                    assert(p[i] == f0.provisional[i]);
                    assert(f0.child_is_dispatched(g, i, k));
                    lemma_has_key_push(f0.provisional, (class, node), child);
                } else {
                    lemma_new_visits_cover(kids, p, seen, k);
                }
            }
            assert forall|i: int| 0 <= i < p.len() implies #[trigger] f.was_queued(i) by {
                if i < f0.provisional.len() {
                    assert(f0.was_queued(i));
                    let j = choose|j: int|
                        0 <= j < f0.to_visit.front && j < f0.to_visit.data.len()
                            && #[trigger] f0.to_visit.data[j] == f0.provisional[i].0;
                    assert(f.to_visit.data[j] == f0.to_visit.data[j]);
                    assert(p[i] == f0.provisional[i]);
                } else {
                    let j = f0.to_visit.front - 1;
                    assert(f.to_visit.data[j] == f0.to_visit.data[j]);
                }
            }
            assert forall|j: int| 1 <= j < f.to_visit.data.len() implies #[trigger] f.has_parent(
                g,
                j,
            ) by {
                let visits = new_visits(kids, p, seen);
                if j < f0.to_visit.data.len() {
                    assert(f0.has_parent(g, j));
                    let i = choose|i: int|
                        0 <= i < f0.provisional.len() && #[trigger] (g.children)(
                            f0.provisional[i].1,
                        ).contains(f0.to_visit.data[j]);
                    assert(p[i] == f0.provisional[i]);
                    assert(f.to_visit.data[j] == f0.to_visit.data[j]);
                    assert((g.children)(p[i].1).contains(f.to_visit.data[j]));
                } else {
                    let m = j - f0.to_visit.data.len();
                    assert(f.to_visit.data[j] == visits[m]);
                    lemma_new_visits_are_children(kids, p, seen, m);
                    let i = p.len() - 1;
                    assert(p[i] == (class, node));
                    assert((g.children)(p[i].1).contains(f.to_visit.data[j]));
                }
            }
            assert(f.extends(f0));
            lemma_snapshots_extension(f0, f, snaps, g);
            assert(self@.snapshots == snaps);
            let outcome = f0.dispatched(index0, class, node, g);
            assert(f.to_visit == outcome.0.to_visit);
            assert(f == outcome.0);
        }
    }

    /// The class that awaits a node, if there is one, in a handle through
    /// which the node can be given.
    pub fn start_next_assign(&mut self) -> (next: Option<AssignHandle<'_>>)
        ensures
            next is Some <==> old(self)@.frame.to_visit.has_front(),
            next is Some ==> *next->Some_0.state == *old(self) && *final(next->Some_0.state)
                == *final(self),
            next is None ==> *final(self) == *old(self),
    {
        match self.pending.to_visit.front() {
            Some(_) => Some(AssignHandle { state: self }),
            None => None,
        }
    }
}

impl<'a> AssignHandle<'a> {
    /// The class that awaits a node.
    pub fn class(&self) -> (class: &ClassId)
        requires
            old(self.state)@.frame.to_visit.has_front(),
        ensures
            *class == old(self.state)@.frame.next_class(),
    {
        self.state.pending.to_visit.front().unwrap()
    }

    /// Give `node` to the class: the class leaves the queue and gets a
    /// provisional entry, every provisional entry whose node has all its
    /// child classes committed is committed, and the child classes of `node`
    /// that have no provisional node and are not awaiting one are queued.
    pub fn assign<E: Egraph>(self, node: NodeId, egraph: &E)
        requires
            old(self.state)@.frame.to_visit.has_front(),
            old(self.state).wf(egraph.model()),
        ensures
            final(self.state).wf(egraph.model()),
            final(self.state)@ == old(self.state)@.assign(node, egraph.model()),
            old(self.state)@.frame.assigned(node, egraph.model(), final(self.state)@.frame),
    {
        let ghost g = egraph.model();
        let ghost f0 = self.state@.frame;
        let class = self.state.pending.to_visit.pop_front().unwrap();
        proof {
            let f1 = self.state@.frame;
            assert(class == f0.next_class());
            let live0 = f0.to_visit.live();
            let live1 = f1.to_visit.live();
            assert(live1 =~= live0.skip(1));
            assert(live0[0] == class);
            assert forall|i: int, j: int|
                0 <= i < live1.len() && 0 <= j < live1.len() && i != j implies live1[i]
                != live1[j] by {
                assert(live0[i + 1] != live0[j + 1]);
            }
            assert(f1.to_visit_set.remove(class) =~= live1.to_set()) by {
                assert forall|c: ClassId| f1.to_visit_set.remove(class).contains(c)
                    <==> live1.to_set().contains(c) by {
                    if f1.to_visit_set.remove(class).contains(c) {
                        assert(live0.contains(c));
                        let i = choose|i: int| 0 <= i < live0.len() && live0[i] == c;
                        assert(live1[i - 1] == c);
                    }
                    if live1.contains(c) {
                        let i = choose|i: int| 0 <= i < live1.len() && live1[i] == c;
                        assert(live0[i + 1] == c);
                        assert(live0.contains(c));
                        assert(live0[0] != live0[i + 1]);
                    }
                }
            }
            assert(live0.contains(class));
            assert(f1.extends(f0));
            lemma_snapshots_extension(f0, f1, self.state@.snapshots, g);
            assert(f1 == f0.popped());
            assert forall|i: int, k: int|
                0 <= i < f1.provisional.len() && 0 <= k < (g.children)(f1.provisional[i].1).len()
                implies #[trigger] f1.child_is_dispatched(g, i, k) by {
                assert(f0.child_is_dispatched(g, i, k));
            }
            assert forall|i: int| 0 <= i < f1.provisional.len() implies #[trigger] f1.was_queued(
                i,
            ) by {
                assert(f0.was_queued(i));
                let j = choose|j: int|
                    0 <= j < f0.to_visit.front && j < f0.to_visit.data.len()
                        && #[trigger] f0.to_visit.data[j] == f0.provisional[i].0;
                assert(f1.to_visit.data[j] == f0.to_visit.data[j]);
            }
            assert forall|j: int| 1 <= j < f1.to_visit.data.len() implies #[trigger] f1.has_parent(
                g,
                j,
            ) by {
                assert(f0.has_parent(g, j));
            }
        }
        self.state.provisional_assign(class, node, egraph);
    }
}


/// A sound state has a sound observable value.
pub proof fn lemma_wf_view(state: ExtractionState, g: GraphModel)
    requires
        state.wf(g),
    ensures
        state@.wf(g),
{
}

/// `utility` holds the utility that the graph gives to `done`, the committed
/// assignment of `later`, a complete frame that was reached from `before` by
/// giving members of their classes to the classes that awaited a node.
pub open spec fn scores<E: EgraphTotalCost>(
    egraph: &E,
    before: Frame,
    later: Frame,
    done: Assignment,
    utility: Option<E::Utility>,
) -> bool {
    &&& later.wf(egraph.model())
    &&& later.is_complete()
    &&& later.extends(before)
    &&& forall|i: int|
        before.provisional.len() <= i < later.provisional.len() ==> (egraph.model().members)(
            (#[trigger] later.provisional[i]).0,
        ).contains(later.provisional[i].1)
    &&& assignment_entries(done) == later.assign
    &&& utility is Some
    &&& call_ensures(E::assignment_utility, (egraph, &done), utility->Some_0)
}

/// `later` was reached from `before` by giving members of their classes to
/// the classes that awaited a node, and a rollout fails there: a class
/// without members is next, or no class is and the assignment is not
/// complete, because nodes wait for one another in a cycle.
pub open spec fn fails(g: GraphModel, before: Frame, later: Frame) -> bool {
    &&& later.wf(g)
    &&& later.extends(before)
    &&& forall|i: int|
        before.provisional.len() <= i < later.provisional.len() ==> (g.members)(
            (#[trigger] later.provisional[i]).0,
        ).contains(later.provisional[i].1)
    &&& if later.to_visit.has_front() {
        (g.members)(later.next_class()).len() == 0
    } else {
        !later.is_complete()
    }
}

/// `sample` can be what one rollout from `frame` counts for: the utility of
/// the complete assignment that it reached, or zero where it failed.
pub open spec fn is_sample<E: EgraphTotalCost>(egraph: &E, frame: Frame, sample: E::Utility) -> bool {
    ||| exists|later: Frame, done: Assignment| scores(egraph, frame, later, done, Some(sample))
    ||| (exists|later: Frame| fails(egraph.model(), frame, later)) && call_ensures(
        <E::Utility as Utility>::zero,
        (),
        sample,
    )
}

/// `total` can be the sum, built up from zero, of what `count` rollouts from
/// `frame` count for.
pub open spec fn is_sum_of_samples<E: EgraphTotalCost>(
    egraph: &E,
    frame: Frame,
    count: nat,
    total: E::Utility,
) -> bool
    decreases count,
{
    if count == 0 {
        call_ensures(<E::Utility as Utility>::zero, (), total)
    } else {
        exists|before: E::Utility, sample: E::Utility|
            is_sum_of_samples(egraph, frame, (count - 1) as nat, before) && is_sample(
                egraph,
                frame,
                sample,
            ) && #[trigger] call_ensures(
                <E::Utility as Utility>::plus,
                (&before, &sample),
                total,
            )
    }
}

/// `util` can be the value of the assignment of `frame` as it stands: the
/// utility that the graph gives it if it is complete, and otherwise the mean
/// of what `terms` rollouts count for.
pub open spec fn estimates<E: EgraphTotalCost>(
    egraph: &E,
    frame: Frame,
    terms: usize,
    util: E::Utility,
) -> bool {
    if frame.is_complete() {
        exists|done: Assignment|
            assignment_entries(done) == frame.assign && #[trigger] call_ensures(
                E::assignment_utility,
                (egraph, &done),
                util,
            )
    } else {
        exists|sum: E::Utility|
            is_sum_of_samples(egraph, frame, terms as nat, sum) && #[trigger] call_ensures(
                <E::Utility as Utility>::mean,
                (&sum, terms),
                util,
            )
    }
}

/// Give every class that awaits a node a member of the class picked at
/// random, until no class awaits one or a class without members turns up,
/// and score the assignment if it is complete.
fn complete_at_random<E: EgraphTotalCost>(
    egraph: &E,
    state: &mut ExtractionState,
    rng: &mut StdRng,
) -> (utility: Option<E::Utility>)
    requires
        old(state).wf(egraph.model()),
    ensures
        final(state).wf(egraph.model()),
        final(state)@.snapshots == old(state)@.snapshots,
        final(state)@.frame.extends(old(state)@.frame),
        old(state)@.frame.is_complete() ==> utility is Some,
        old(state)@.frame.to_visit.has_front() && (egraph.model().members)(
            old(state)@.frame.next_class(),
        ).len() == 0 ==> utility is None,
        utility is Some ==> exists|later: Frame, done: Assignment|
            scores(egraph, old(state)@.frame, later, done, utility),
        utility is None ==> fails(egraph.model(), old(state)@.frame, final(state)@.frame),
        old(state)@.frame.is_on_safe_ground(egraph.model()) ==> utility is Some,
{
    let ghost g = egraph.model();
    let ghost start = state@;
    let ghost safe = start.frame.is_on_safe_ground(g);
    let ghost ground = choose|classes: Set<ClassId>, rank: spec_fn(ClassId) -> nat|
        #[trigger] is_safe_ground(g, classes, rank) && start.frame.within(classes);
    loop
        invariant
            g == egraph.model(),
            start == old(state)@,
            state.wf(g),
            state@.snapshots == start.snapshots,
            state@.frame.extends(start.frame),
            start.frame.is_complete() ==> state@ == start,
            start.frame.to_visit.has_front() && (g.members)(start.frame.next_class()).len() == 0
                ==> state@ == start,
            safe == start.frame.is_on_safe_ground(g),
            safe ==> is_safe_ground(g, ground.0, ground.1) && state@.frame.within(ground.0)
                && chosen_from_members(start.frame.provisional, g),
            forall|i: int|
                start.frame.provisional.len() <= i < state@.frame.provisional.len() ==> (
                g.members)((#[trigger] state@.frame.provisional[i]).0).contains(
                    state@.frame.provisional[i].1,
                ),
        ensures
            !state@.frame.to_visit.has_front(),
        decreases usize::MAX - state@.frame.provisional.len(),
    {
        let ghost before = state@;
        proof {
            lemma_wf_view(*state, g);
            if start.frame.is_complete() {
                lemma_complete_has_no_front(start.frame, g);
            }
        }
        match state.start_next_assign() {
            None => {
                break ;
            },
            Some(handle) => {
                let members = egraph.members(handle.class());
                proof {
                    let f = before.frame;
                    assert(f.to_visit.live()[0] == f.next_class());
                    assert(f.to_visit.live().contains(f.next_class()));
                    assert(f.to_visit_set.contains(f.next_class()));
                }
                if members.len() == 0 {
                    return None;
                }
                let choice = pick_below(rng, members.len());
                proof {
                    assert(members@.contains(members@[choice as int]));
                    if safe {
                        lemma_dispatch_stays_within(
                            before.frame,
                            before.watchers,
                            members@[choice as int],
                            g,
                            ground.0,
                            ground.1,
                        );
                    }
                }
                handle.assign(members[choice], egraph);
            },
        }
        proof {
            lemma_wf_view(*state, g);
            let prov0 = before.frame.provisional;
            let prov = state@.frame.provisional;
            assert forall|i: int| start.frame.provisional.len() <= i < prov.len() implies (
            g.members)((#[trigger] prov[i]).0).contains(prov[i].1) by {
                if i < prov0.len() {
                    assert(prov[i] == prov0[i]);
                }
            }
        }
    }
    proof {
        lemma_wf_view(*state, g);
        if safe {
            let prov = state@.frame.provisional;
            assert forall|i: int| 0 <= i < prov.len() implies (g.members)(
                (#[trigger] prov[i]).0,
            ).contains(prov[i].1) by {
                if i < start.frame.provisional.len() {
                    assert(prov[i] == start.frame.provisional[i]);
                }
            }
            lemma_safe_ground_completes(state@.frame, g, ground.0, ground.1);
        }
    }
    match state.complete_assignment() {
        Some(assignment) => {
            let utility = egraph.assignment_utility(assignment);
            assert(scores(egraph, old(state)@.frame, state@.frame, *assignment, Some(utility)));
            Some(utility)
        },
        None => None,
    }
}

/// Given an egraph that can estimate the utility of an assignment, simulate
/// a random extraction from the partial extraction in `state` and return its
/// utility. Returns `None` if the random extraction fails: a class without
/// members was reached, or the nodes picked depend on one another in a
/// cycle. Either way the state is handed back as it was, but for its
/// dependency index, which has been built anew.
///
/// A utility that is returned is the one that the graph gives to a complete
/// assignment that contains the committed entries of `state`. Where no
/// choice of members can go wrong, one is returned.
pub fn random_cost_estimate<E: EgraphTotalCost>(
    egraph: &E,
    state: &mut ExtractionState,
    rng: &mut StdRng,
) -> (utility: Option<E::Utility>)
    requires
        old(state).wf(egraph.model()),
    ensures
        final(state).wf(egraph.model()),
        final(state)@ == old(state)@.rehydrated(egraph.model()),
        old(state)@.frame.is_complete() ==> utility is Some,
        old(state)@.frame.to_visit.has_front() && (egraph.model().members)(
            old(state)@.frame.next_class(),
        ).len() == 0 ==> utility is None,
        utility is Some ==> exists|later: Frame, done: Assignment|
            scores(egraph, old(state)@.frame, later, done, utility),
        utility is None ==> exists|later: Frame| fails(egraph.model(), old(state)@.frame, later),
        old(state)@.frame.is_on_safe_ground(egraph.model()) ==> utility is Some,
{
    let ghost g = egraph.model();
    // Push a snapshot so we can hand the state back like we got it.
    state.push_snapshot();
    let ghost pushed = state@;
    let res = complete_at_random(egraph, state, rng);
    proof {
        if res is None {
            assert(fails(g, old(state)@.frame, state@.frame));
        }
        lemma_wf_view(*old(state), g);
        lemma_push_snapshot_wf(old(state)@, g);
        assert(state@.follows(pushed));
        lemma_reset_returns_to_snapshot(pushed, state@, g);
    }
    state.reset(egraph);
    state.pop_snapshot();
    proof {
        assert(pushed.snapshots.drop_last() =~= old(state)@.snapshots);
    }
    res
}

} // verus!

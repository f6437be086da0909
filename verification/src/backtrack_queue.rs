//! A first-in, first-out queue whose front is a cursor.
//!
//! Popping advances the cursor and leaves the element in storage, so a
//! snapshot is two numbers and restoring one brings back every element that
//! was popped since it was taken.

use vstd::prelude::*;
use vstd::slice::slice_subrange;

verus! {

/// The mathematical value of a [`BacktrackQueue`]: everything ever pushed and
/// not truncated away, and the position of the cursor.
pub ghost struct QueueModel<T> {
    pub data: Seq<T>,
    pub front: nat,
}

/// The mathematical value of a [`QueueSnapshot`].
pub ghost struct SnapshotModel {
    pub front: nat,
    pub back: nat,
}

impl<T> QueueModel<T> {
    /// The queue that holds nothing.
    pub open spec fn empty() -> Self {
        QueueModel { data: Seq::empty(), front: 0 }
    }

    /// The elements from the cursor onward: what is still to be popped.
    pub open spec fn live(self) -> Seq<T> {
        if self.front <= self.data.len() {
            self.data.skip(self.front as int)
        } else {
            Seq::empty()
        }
    }

    /// Whether a pop would yield an element.
    pub open spec fn has_front(self) -> bool {
        self.front < self.data.len()
    }

    /// The queue with `elem` appended.
    pub open spec fn push_back(self, elem: T) -> Self {
        QueueModel { data: self.data.push(elem), front: self.front }
    }

    /// The queue with its cursor one further, if there is an element to pass.
    pub open spec fn pop_front(self) -> Self {
        if self.has_front() {
            QueueModel { data: self.data, front: self.front + 1 }
        } else {
            self
        }
    }

    /// What a snapshot records: the cursor and the length.
    pub open spec fn snapshot(self) -> SnapshotModel {
        SnapshotModel { front: self.front, back: self.data.len() }
    }

    /// The queue with the cursor where `snap` saw it and cut back to the
    /// length that `snap` saw, if it is longer.
    pub open spec fn restore(self, snap: SnapshotModel) -> Self {
        QueueModel {
            data: if snap.back <= self.data.len() {
                self.data.take(snap.back as int)
            } else {
                self.data
            },
            front: snap.front,
        }
    }

    /// `self` was reached from `earlier` without cutting into what `earlier`
    /// held: every element of `earlier` is still in place.
    pub open spec fn keeps(self, earlier: Self) -> bool {
        earlier.data.is_prefix_of(self.data)
    }
}

/// One step that a caller can take on a queue between a snapshot and the
/// restore that is paired with it.
pub ghost enum QueueStep<T> {
    Push(T),
    Pop,
    /// A snapshot followed, some steps later, by its own restore.
    Rewind(SnapshotModel),
}

/// The queue after `steps`, taken from left to right.
pub open spec fn run_steps<T>(q: QueueModel<T>, steps: Seq<QueueStep<T>>) -> QueueModel<T>
    decreases steps.len(),
{
    if steps.len() == 0 {
        q
    } else {
        let before = run_steps(q, steps.drop_last());
        match steps.last() {
            QueueStep::Push(elem) => before.push_back(elem),
            QueueStep::Pop => before.pop_front(),
            QueueStep::Rewind(snap) => before.restore(snap),
        }
    }
}

/// Every rewind among `steps` goes back to a snapshot that was taken no
/// earlier than the moment at which the queue held `floor` elements.
pub open spec fn rewinds_stay_above<T>(steps: Seq<QueueStep<T>>, floor: nat) -> bool {
    forall|i: int|
        0 <= i < steps.len() ==> match #[trigger] steps[i] {
            QueueStep::Rewind(snap) => snap.back >= floor,
            _ => true,
        }
}

/// A queue where elements popped off the front are not deleted, and come back
/// when the queue is restored to a snapshot.
pub struct BacktrackQueue<T> {
    data: Vec<T>,
    front: usize,
}

/// The cursor and the length of a queue at one moment.
#[derive(Debug)]
pub struct QueueSnapshot {
    pub front: usize,
    pub back: usize,
}

impl View for QueueSnapshot {
    type V = SnapshotModel;

    open spec fn view(&self) -> SnapshotModel {
        SnapshotModel { front: self.front as nat, back: self.back as nat }
    }
}

impl<T> View for BacktrackQueue<T> {
    type V = QueueModel<T>;

    closed spec fn view(&self) -> QueueModel<T> {
        QueueModel { data: self.data@, front: self.front as nat }
    }
}

impl<T> Default for BacktrackQueue<T> {
    fn default() -> (q: Self)
        ensures
            q@ == QueueModel::<T>::empty(),
    {
        Self { data: Vec::new(), front: 0 }
    }
}

impl<T: Clone> BacktrackQueue<T> {
    /// Push a new element to the back of the queue.
    pub fn push_back(&mut self, elem: T)
        ensures
            final(self)@ == old(self)@.push_back(elem),
    {
        self.data.push(elem);
    }

    /// Pop an element from the front of the queue. The element stays in
    /// storage; only the cursor moves.
    pub fn pop_front(&mut self) -> (popped: Option<T>)
        ensures
            final(self)@ == old(self)@.pop_front(),
            popped is Some <==> old(self)@.has_front(),
            popped is Some ==> cloned(old(self)@.data[old(self)@.front as int], popped->Some_0),
    {
        if self.front < self.data.len() {
            let elem = self.data[self.front].clone();
            self.front += 1;
            Some(elem)
        } else {
            None
        }
    }

    /// Return a snapshot of the queue that can be passed to `restore`.
    pub fn snapshot(&self) -> (snap: QueueSnapshot)
        ensures
            snap@ == self@.snapshot(),
    {
        QueueSnapshot { front: self.front, back: self.data.len() }
    }

    /// Move the cursor back to where `snap` saw it and drop what was pushed
    /// after `snap` was taken.
    pub fn restore(&mut self, snap: &QueueSnapshot)
        ensures
            final(self)@ == old(self)@.restore(snap@),
    {
        self.front = snap.front;
        self.data.truncate(snap.back);
    }

    /// The element that the next pop would yield.
    pub fn front(&self) -> (head: Option<&T>)
        ensures
            head is Some <==> self@.has_front(),
            head is Some ==> *head->Some_0 == self@.data[self@.front as int],
    {
        if self.front < self.data.len() {
            Some(&self.data[self.front])
        } else {
            None
        }
    }

    /// The elements from the cursor to the back, in order.
    pub fn iter(&self) -> (rest: &[T])
        ensures
            rest@ == self@.live(),
    {
        let len = self.data.len();
        let start = if self.front < len { self.front } else { len };
        slice_subrange(self.data.as_slice(), start, len)
    }
}

/// Restoring the snapshot that a queue has just taken changes nothing.
pub proof fn lemma_restore_own_snapshot<T>(q: QueueModel<T>)
    ensures
        q.restore(q.snapshot()) == q,
{
    assert(q.data.take(q.data.len() as int) =~= q.data);
}

/// However a queue was pushed to and popped from since a snapshot, restoring
/// the snapshot gives back the queue as it was: the same storage, the same
/// cursor, and so the same elements from the front onward.
pub proof fn lemma_restore_round_trip<T>(earlier: QueueModel<T>, later: QueueModel<T>)
    requires
        later.keeps(earlier),
    ensures
        later.restore(earlier.snapshot()) == earlier,
        later.restore(earlier.snapshot()).live() == earlier.live(),
{
    assert(later.data.take(earlier.data.len() as int) =~= earlier.data);
}

/// Pushes, pops, and rewinds to snapshots taken after `start` all keep what
/// `start` held.
pub proof fn lemma_steps_keep<T>(start: QueueModel<T>, steps: Seq<QueueStep<T>>)
    requires
        rewinds_stay_above(steps, start.data.len()),
    ensures
        run_steps(start, steps).keeps(start),
    decreases steps.len(),
{
    if steps.len() > 0 {
        let init = steps.drop_last();
        assert forall|i: int| 0 <= i < init.len() implies match #[trigger] init[i] {
            QueueStep::Rewind(snap) => snap.back >= start.data.len(),
            _ => true,
        } by {
            assert(init[i] == steps[i]);
        }
        lemma_steps_keep(start, init);
        let before = run_steps(start, init);
        match steps.last() {
            QueueStep::Push(elem) => {},
            QueueStep::Pop => {},
            QueueStep::Rewind(snap) => {
                assert(steps[steps.len() - 1] == steps.last());
            },
        }
    }
}

/// The round trip for any interleaving: take a snapshot, push, pop and rewind
/// to later snapshots in any order, then restore the first snapshot. What is
/// observed from the front onward is what was there when it was taken.
pub proof fn lemma_interleaving_round_trip<T>(start: QueueModel<T>, steps: Seq<QueueStep<T>>)
    requires
        rewinds_stay_above(steps, start.data.len()),
    ensures
        run_steps(start, steps).restore(start.snapshot()) == start,
        run_steps(start, steps).restore(start.snapshot()).live() == start.live(),
{
    lemma_steps_keep(start, steps);
    lemma_restore_round_trip(start, run_steps(start, steps));
}

} // verus!

//! The order in which provisional entries are committed.
//!
//! A provisional entry whose node has a child class that is not committed
//! waits: it is filed as a watcher under the first such child class. When a
//! class is committed, its watchers are looked at again, in the order in
//! which they were filed: one that still waits for another class is filed
//! under that class, and one that waits for nothing more is committed, which
//! sets its own watchers going before the next one is looked at.

use crate::assignment::{has_key, ClassId, NodeId};
use crate::egraph::GraphModel;
use vstd::prelude::*;

verus! {

/// A provisional choice of `node` for `class` that waits for the classes in
/// `deps`, and maybe for no others.
pub ghost struct Watcher {
    pub node: NodeId,
    pub class: ClassId,
    pub deps: Seq<ClassId>,
}

/// The test for a class without an entry in `assign`.
pub open spec fn unassigned_in(assign: Seq<(ClassId, NodeId)>) -> spec_fn(ClassId) -> bool {
    |c: ClassId| !has_key(assign, c)
}

/// The index with `watcher` filed under `watch`, behind the watchers that are
/// there already.
pub open spec fn file(
    index: Map<ClassId, Seq<Watcher>>,
    watch: ClassId,
    watcher: Watcher,
) -> Map<ClassId, Seq<Watcher>> {
    index.insert(
        watch,
        if index.contains_key(watch) {
            index[watch].push(watcher)
        } else {
            seq![watcher]
        },
    )
}

/// The index and the committed entries after the watchers of `class`, which
/// has just been committed, have been looked at again.
///
/// `fuel` bounds the number of entries that can be committed on the way. Each
/// commit takes a provisional entry that is not committed, so in a sound
/// state the number of such entries is fuel enough.
pub open spec fn settle(
    index: Map<ClassId, Seq<Watcher>>,
    assign: Seq<(ClassId, NodeId)>,
    class: ClassId,
    fuel: nat,
) -> (Map<ClassId, Seq<Watcher>>, Seq<(ClassId, NodeId)>)
    decreases fuel, 1nat, 0nat,
{
    if index.contains_key(class) {
        settle_each(index.remove(class), assign, index[class], 0, fuel)
    } else {
        (index, assign)
    }
}

/// The index and the committed entries after the watchers of `waiting` from
/// position `from` on have been looked at again, one after the other.
pub open spec fn settle_each(
    index: Map<ClassId, Seq<Watcher>>,
    assign: Seq<(ClassId, NodeId)>,
    waiting: Seq<Watcher>,
    from: nat,
    fuel: nat,
) -> (Map<ClassId, Seq<Watcher>>, Seq<(ClassId, NodeId)>)
    decreases fuel, 0nat, waiting.len() - from,
{
    if from >= waiting.len() {
        (index, assign)
    } else {
        let watcher = waiting[from as int];
        let deps = watcher.deps.filter(unassigned_in(assign));
        if deps.len() > 0 {
            // Start watching another unresolved dependency.
            let moved = Watcher { node: watcher.node, class: watcher.class, deps };
            settle_each(file(index, deps[0], moved), assign, waiting, from + 1, fuel)
        } else if fuel == 0 {
            (index, assign)
        } else {
            // This was the last dependency: commit, and let the commit work
            // through before the next watcher is looked at.
            let committed = settle(
                index,
                assign.push((watcher.class, watcher.node)),
                watcher.class,
                (fuel - 1) as nat,
            );
            settle_each(committed.0, committed.1, waiting, from + 1, fuel)
        }
    }
}

/// The index and the committed entries after `node` has been chosen for
/// `class`: filed under the first child class that is not committed, or, if
/// there is none, committed, with all that follows from that.
pub open spec fn track(
    index: Map<ClassId, Seq<Watcher>>,
    assign: Seq<(ClassId, NodeId)>,
    class: ClassId,
    node: NodeId,
    children: Seq<ClassId>,
    fuel: nat,
) -> (Map<ClassId, Seq<Watcher>>, Seq<(ClassId, NodeId)>) {
    let deps = children.filter(unassigned_in(assign));
    if deps.len() > 0 {
        (file(index, deps[0], Watcher { node, class, deps }), assign)
    } else {
        settle(index, assign.push((class, node)), class, fuel)
    }
}

/// The index that is built by filing, in order, the first `upto` provisional
/// entries that are not committed.
pub open spec fn rehydrate(
    prov: Seq<(ClassId, NodeId)>,
    assign: Seq<(ClassId, NodeId)>,
    g: GraphModel,
    upto: nat,
) -> Map<ClassId, Seq<Watcher>>
    decreases upto,
{
    if upto == 0 {
        Map::empty()
    } else {
        let before = rehydrate(prov, assign, g, (upto - 1) as nat);
        let entry = prov[upto - 1];
        if has_key(assign, entry.0) {
            before
        } else {
            track(before, assign, entry.0, entry.1, (g.children)(entry.1), 0).0
        }
    }
}

} // verus!

//! Basic monte-carlo tree search for e-graph extraction.

use crate::assignment::{
    assignment_clone, assignment_entries, entries_within, has_key, key_at, lemma_entry_unique,
    Assignment, ClassId, NodeId,
};
use crate::egraph::{EgraphTotalCost, GraphModel, Utility};
use crate::extraction::{
    chosen_from_members, is_extraction, is_named_later, lemma_child_comes_earlier,
};
use crate::extraction_state::{
    estimates, is_sample, is_sum_of_samples, lemma_wf_view, random_cost_estimate, scores,
    ExtractionState,
};
use crate::state_model::{
    Frame, lemma_assign_advances_queue, lemma_complete_covers, lemma_complete_has_no_front,
    lemma_reset_returns_to_snapshot, QueueView, StateView,
};
use crate::fx::{child_map_get, child_map_insert};
use crate::ground::{
    is_safe_ground, lemma_dispatch_stays_within, lemma_safe_ground_completes,
    lemma_within_is_bounded,
};
use crate::MctsConfig;
use fxhash::FxHashMap;
use rand::rngs::StdRng;
use vstd::prelude::*;

verus! {

/// A dense index into the vector of tree nodes.
#[derive(Copy, Clone, Debug, PartialEq, Eq, Hash)]
pub struct TreeNodeId(pub u32);

impl TreeNodeId {
    /// The position of the node in the vector of tree nodes.
    pub fn index(self) -> (i: usize)
        ensures
            i == self.0,
    {
        self.0 as usize
    }
}

/// A node of the search tree: the statistics of the playouts that passed
/// through one sequence of choices.
pub struct TreeNode<U> {
    /// The class that the e-node leading to this tree node was chosen for;
    /// for the root of the tree, the root class.
    class: ClassId,
    n_visits: u32,
    total_utility: U,
    state: FxHashMap<NodeId, TreeNodeId>,
    /// The queue of the search when it stands at this node.
    queue: Ghost<QueueView>,
}

/// The mathematical value of a tree node.
pub ghost struct TreeNodeView<U> {
    pub class: ClassId,
    pub n_visits: u32,
    pub total_utility: U,
    pub children: Map<NodeId, TreeNodeId>,
    /// The queue of the search when it stands at this node: the root of the
    /// tree stands for the queue of a new state, and a child for the queue
    /// of its parent after the e-node that leads to the child was chosen.
    pub queue: QueueView,
}

impl<U> View for TreeNode<U> {
    type V = TreeNodeView<U>;

    closed spec fn view(&self) -> TreeNodeView<U> {
        TreeNodeView {
            class: self.class,
            n_visits: self.n_visits,
            total_utility: self.total_utility,
            children: self.state@,
            queue: self.queue@,
        }
    }
}

/// The search tree: a vector of nodes, of which node 0 is the root. Nodes are
/// only ever appended.
pub struct SearchTree<U> {
    root_class: ClassId,
    root_tree_node: TreeNodeId,
    nodes: Vec<TreeNode<U>>,
}

/// The mathematical value of a search tree.
pub ghost struct TreeView<U> {
    pub root_class: ClassId,
    pub root: TreeNodeId,
    pub nodes: Seq<TreeNodeView<U>>,
}

impl<U> View for SearchTree<U> {
    type V = TreeView<U>;

    closed spec fn view(&self) -> TreeView<U> {
        TreeView {
            root_class: self.root_class,
            root: self.root_tree_node,
            nodes: self.nodes@.map_values(|n: TreeNode<U>| n@),
        }
    }
}

impl<U> TreeView<U> {
    /// `id` names a node of the tree.
    pub open spec fn has(self, id: TreeNodeId) -> bool {
        id.0 < self.nodes.len()
    }

    /// The invariant of a search tree for the graph `g`: the root is node 0
    /// and stands for the root class and for the queue of a new state; every
    /// index fits in 32 bits; and every child was created after its parent,
    /// for an e-node that is a member of the class recorded in the child,
    /// which is the class that is next at the parent.
    pub open spec fn wf(self, g: GraphModel) -> bool {
        &&& 1 <= self.nodes.len() <= u32::MAX + 1
        &&& self.root.0 == 0
        &&& self.nodes[0].class == self.root_class
        &&& self.nodes[0].queue == QueueView::initial(self.root_class)
        &&& forall|i: int, e: NodeId|
            0 <= i < self.nodes.len() && #[trigger] self.nodes[i].children.contains_key(e) ==> {
                &&& i < self.nodes[i].children[e].0 < self.nodes.len()
                &&& (g.members)(self.nodes[self.nodes[i].children[e].0 as int].class).contains(e)
                &&& self.nodes[self.nodes[i].children[e].0 as int].class
                    == self.nodes[i].queue.next_class()
                &&& self.nodes[self.nodes[i].children[e].0 as int].queue
                    == self.nodes[i].queue.advance(e, g)
            }
    }

    /// The node `from` has a child for `enode`, recorded for `class`.
    pub open spec fn leads(self, from: TreeNodeId, enode: NodeId, class: ClassId) -> bool {
        let children = self.nodes[from.0 as int].children;
        children.contains_key(enode) && self.nodes[children[enode].0 as int].class == class
    }

    /// `later` is this tree after more playouts: the nodes that were there
    /// are still there, for the same classes, with the children they had and
    /// maybe more.
    pub open spec fn grown_into(self, later: TreeView<U>) -> bool {
        &&& later.root_class == self.root_class
        &&& later.root == self.root
        &&& self.nodes.len() <= later.nodes.len()
        &&& forall|i: int|
            0 <= i < self.nodes.len() ==> (#[trigger] later.nodes[i]).class == self.nodes[i].class
                && later.nodes[i].queue == self.nodes[i].queue
                && self.nodes[i].children.submap_of(later.nodes[i].children)
    }
}

/// `path` goes down the tree: each node was created after the one before.
pub open spec fn is_tree_path<U>(tree: TreeView<U>, path: Seq<TreeNodeId>) -> bool {
    &&& forall|k: int| 0 <= k < path.len() ==> tree.has(#[trigger] path[k])
    &&& forall|k: int, m: int| 0 <= k < m < path.len() ==> (#[trigger] path[k]).0 < (#[trigger] path[m]).0
}

/// Whether `id` is one of the nodes of `path` from position `from` on.
pub open spec fn on_path(path: Seq<TreeNodeId>, from: int, id: int) -> bool {
    exists|k: int| from <= k < path.len() && (#[trigger] path[k]).0 == id
}

/// A visit count with one more visit, unless it is at its maximum.
pub open spec fn one_more(n_visits: u32) -> u32 {
    if n_visits == u32::MAX {
        n_visits
    } else {
        (n_visits + 1) as u32
    }
}

/// `best` is the position of the candidate to pick among `ranks`: the last
/// one among those of the highest rank, or none where there is no candidate.
pub open spec fn is_best(ranks: Seq<u32>, best: Option<usize>) -> bool {
    &&& best is None <==> ranks.len() == 0
    &&& best is Some ==> {
        &&& best->Some_0 < ranks.len()
        &&& forall|j: int| 0 <= j < ranks.len() ==> #[trigger] ranks[j] <= ranks[best->Some_0 as int]
        &&& forall|j: int|
            best->Some_0 < j < ranks.len() ==> #[trigger] ranks[j] < ranks[best->Some_0 as int]
    }
}

/// The position of the candidate to pick among `ranks`: the last one among
/// those of the highest rank, or none where there is no candidate.
pub fn select_best(ranks: &Vec<u32>) -> (best: Option<usize>)
    ensures
        is_best(ranks@, best),
        best is None <==> ranks@.len() == 0,
        best is Some ==> {
            &&& best->Some_0 < ranks@.len()
            &&& forall|j: int|
                0 <= j < ranks@.len() ==> #[trigger] ranks@[j] <= ranks@[best->Some_0 as int]
            &&& forall|j: int|
                best->Some_0 < j < ranks@.len() ==> #[trigger] ranks@[j] < ranks@[best->Some_0 as int]
        },
{
    if ranks.len() == 0 {
        return None;
    }
    let mut best: usize = 0;
    let mut k: usize = 1;
    while k < ranks.len()
        invariant
            1 <= k <= ranks.len(),
            best < k,
            forall|j: int| 0 <= j < k ==> #[trigger] ranks@[j] <= ranks@[best as int],
            forall|j: int| best < j < k ==> #[trigger] ranks@[j] < ranks@[best as int],
        decreases ranks.len() - k,
    {
        if ranks[k] >= ranks[best] {
            best = k;
        }
        k += 1;
    }
    Some(best)
}

impl<U: Utility> SearchTree<U> {
    /// A tree with one node, which stands for the root class and has not
    /// been visited.
    pub fn new(root_class: ClassId) -> (tree: Self)
        ensures
            tree@.root_class == root_class,
            tree@.root == TreeNodeId(0),
            tree@.nodes.len() == 1,
            tree@.nodes[0].class == root_class,
            tree@.nodes[0].n_visits == 0,
            tree@.nodes[0].children == Map::<NodeId, TreeNodeId>::empty(),
            tree@.nodes[0].queue == QueueView::initial(root_class),
            call_ensures(U::zero, (), tree@.nodes[0].total_utility),
            forall|g: GraphModel| tree@.wf(g),
    {
        let root_tree_node = TreeNodeId(0);
        let mut nodes = Vec::new();
        nodes.push(
            TreeNode {
                class: root_class,
                n_visits: 0,
                total_utility: U::zero(),
                state: FxHashMap::default(),
                queue: Ghost(QueueView::initial(root_class)),
            },
        );
        Self { root_class, root_tree_node, nodes }
    }

    /// Whether the tree has as many nodes as can be indexed.
    fn is_full(&self) -> (full: bool)
        ensures
            full == (self@.nodes.len() > u32::MAX),
    {
        self.nodes.len() > u32::MAX as usize
    }

    /// Append a node for `class` that has not been visited and has no
    /// children, and return its index. The search stands at the node with
    /// `queue`.
    fn fresh_node(&mut self, class: ClassId, Ghost(queue): Ghost<QueueView>) -> (id: TreeNodeId)
        requires
            old(self)@.nodes.len() <= u32::MAX,
        ensures
            id.0 == old(self)@.nodes.len(),
            final(self)@.root_class == old(self)@.root_class,
            final(self)@.root == old(self)@.root,
            final(self)@.nodes.len() == old(self)@.nodes.len() + 1,
            final(self)@.nodes.take(id.0 as int) == old(self)@.nodes,
            final(self)@.nodes[id.0 as int].class == class,
            final(self)@.nodes[id.0 as int].n_visits == 0,
            final(self)@.nodes[id.0 as int].children == Map::<NodeId, TreeNodeId>::empty(),
            final(self)@.nodes[id.0 as int].queue == queue,
            call_ensures(U::zero, (), final(self)@.nodes[id.0 as int].total_utility),
    {
        let res = TreeNodeId(self.nodes.len() as u32);
        self.nodes.push(
            TreeNode {
                class,
                n_visits: 0,
                total_utility: U::zero(),
                state: FxHashMap::default(),
                queue: Ghost(queue),
            },
        );
        assert(self@.nodes.take(res.0 as int) =~= old(self)@.nodes);
        res
    }
}

impl<U> TreeView<U> {
    /// The visit counts of `later` are those of `self`, with one more visit
    /// for each node of `path` from position `from` on.
    pub open spec fn visited_along(self, path: Seq<TreeNodeId>, from: int, later: TreeView<U>) -> bool {
        &&& later.root_class == self.root_class
        &&& later.root == self.root
        &&& later.nodes.len() == self.nodes.len()
        &&& forall|i: int|
            0 <= i < self.nodes.len() ==> {
                &&& (#[trigger] later.nodes[i]).class == self.nodes[i].class
                &&& later.nodes[i].queue == self.nodes[i].queue
                &&& later.nodes[i].children == self.nodes[i].children
                &&& later.nodes[i].n_visits == if on_path(path, from, i) {
                    one_more(self.nodes[i].n_visits)
                } else {
                    self.nodes[i].n_visits
                }
            }
    }
}

impl<U: Utility> TreeView<U> {
    /// The total utilities of `later` are those of `self`, with `leaf` added
    /// for each node of `path` from position `from` on.
    pub open spec fn credited_along(
        self,
        path: Seq<TreeNodeId>,
        from: int,
        leaf: U,
        later: TreeView<U>,
    ) -> bool {
        &&& later.nodes.len() == self.nodes.len()
        &&& forall|i: int|
            0 <= i < self.nodes.len() ==> if on_path(path, from, i) {
                call_ensures(
                    U::plus,
                    (&self.nodes[i].total_utility, &leaf),
                    (#[trigger] later.nodes[i]).total_utility,
                )
            } else {
                later.nodes[i].total_utility == self.nodes[i].total_utility
            }
    }

    /// At the node `from`, which has been visited and where a class is next,
    /// the descent goes on with `enode`: the member of the next class that
    /// comes out best, by the ranks that the members have as steps from
    /// `from`.
    pub open spec fn chooses(
        self,
        g: GraphModel,
        exploration: U,
        from: TreeNodeId,
        enode: NodeId,
    ) -> bool {
        let queue = self.nodes[from.0 as int].queue;
        let members = (g.members)(queue.next_class());
        &&& self.has(from)
        &&& self.nodes[from.0 as int].n_visits >= 1
        &&& queue.to_visit.has_front()
        &&& exists|ranks: Seq<u32>, best: usize| #[trigger]
            self.picks(from, members, exploration, ranks, best, enode)
    }

    /// `enode` is the member at position `best`, the best position by
    /// `ranks`, which can be the ranks of `members` as steps from `from`.
    pub open spec fn picks(
        self,
        from: TreeNodeId,
        members: Seq<NodeId>,
        exploration: U,
        ranks: Seq<u32>,
        best: usize,
        enode: NodeId,
    ) -> bool {
        &&& self.ranked(from, members, exploration, ranks)
        &&& is_best(ranks, Some(best))
        &&& enode == members[best as int]
    }

    /// `later` is this tree after a step from the node `from` by `enode`:
    /// the same tree where `from` has a child for `enode`, and otherwise the
    /// tree with one node more, which is that child: recorded for the class
    /// that is next at `from`, without visits, children or utility.
    pub open spec fn sprouted(
        self,
        g: GraphModel,
        from: TreeNodeId,
        enode: NodeId,
        later: TreeView<U>,
    ) -> bool {
        let parent = self.nodes[from.0 as int];
        let grown = later.nodes[from.0 as int];
        let new = later.nodes[self.nodes.len() as int];
        if parent.children.contains_key(enode) {
            later == self
        } else {
            &&& later.root_class == self.root_class
            &&& later.root == self.root
            &&& later.nodes.len() == self.nodes.len() + 1
            &&& forall|i: int|
                0 <= i < self.nodes.len() && i != from.0 ==> #[trigger] later.nodes[i]
                    == self.nodes[i]
            &&& grown.class == parent.class
            &&& grown.n_visits == parent.n_visits
            &&& grown.total_utility == parent.total_utility
            &&& grown.queue == parent.queue
            &&& grown.children == parent.children.insert(
                enode,
                TreeNodeId(self.nodes.len() as u32),
            )
            &&& new.class == parent.queue.next_class()
            &&& new.n_visits == 0
            &&& new.children == Map::<NodeId, TreeNodeId>::empty()
            &&& new.queue == parent.queue.advance(enode, g)
            &&& call_ensures(U::zero, (), new.total_utility)
        }
    }

    /// Step `k` of a descent leads, in this tree, from the node before it to
    /// the node after it.
    pub open spec fn links(self, trail: Seq<NodeId>, path: Seq<TreeNodeId>, k: int) -> bool {
        let children = self.nodes[path[k].0 as int].children;
        children.contains_key(trail[k]) && children[trail[k]] == path[k + 1]
    }

    /// A descent through this tree by the e-nodes of `trail` passes the nodes
    /// of `path` and leaves the tree `grown`: each step is chosen by rank at
    /// a visited node, and the last one may have added its child to the
    /// tree.
    pub open spec fn walked(
        self,
        g: GraphModel,
        exploration: U,
        trail: Seq<NodeId>,
        path: Seq<TreeNodeId>,
        grown: TreeView<U>,
    ) -> bool {
        &&& path.len() == trail.len() + 1
        &&& forall|k: int|
            0 <= k < trail.len() ==> #[trigger] self.chooses(g, exploration, path[k], trail[k])
        &&& forall|k: int| 0 <= k < trail.len() ==> #[trigger] grown.links(trail, path, k)
        &&& if trail.len() == 0 {
            grown == self
        } else {
            self.sprouted(g, path[trail.len() - 1], trail.last(), grown)
        }
    }

    /// `rank` can be the rank of `member` as the next step from the node
    /// `cur`: the rank of the child that `cur` has for it, by the child's
    /// total utility and visits, or, where `cur` has no child for it, the
    /// rank of a child without visits whose total utility is zero.
    pub open spec fn ranks_member(
        self,
        cur: TreeNodeId,
        member: NodeId,
        exploration: U,
        rank: u32,
    ) -> bool {
        let parent = self.nodes[cur.0 as int];
        if parent.children.contains_key(member) {
            let child = self.nodes[parent.children[member].0 as int];
            call_ensures(
                U::uct_rank,
                (&child.total_utility, child.n_visits, parent.n_visits, &exploration),
                rank,
            )
        } else {
            exists|zero: U|
                call_ensures(U::zero, (), zero) && #[trigger] call_ensures(
                    U::uct_rank,
                    (&zero, 0u32, parent.n_visits, &exploration),
                    rank,
                )
        }
    }

    /// `ranks` can be the ranks of `members`, one by one, as the next step
    /// from the node `cur`.
    pub open spec fn ranked(
        self,
        cur: TreeNodeId,
        members: Seq<NodeId>,
        exploration: U,
        ranks: Seq<u32>,
    ) -> bool {
        &&& ranks.len() == members.len()
        &&& forall|k: int|
            0 <= k < members.len() ==> #[trigger] self.ranks_member(
                cur,
                members[k],
                exploration,
                ranks[k],
            )
    }
}

impl<U: Utility> SearchTree<U> {
    /// The rank of each of `members` as the next step from the node `cur`:
    /// that of its tree node where the member has one, and that of a node
    /// without visits and with no utility where it has none.
    fn rank_members(
        &self,
        cur: TreeNodeId,
        members: &[NodeId],
        exploration: &U,
        Ghost(g): Ghost<GraphModel>,
    ) -> (ranks: Vec<u32>)
        requires
            self@.wf(g),
            self@.has(cur),
            self@.nodes[cur.0 as int].n_visits >= 1,
        ensures
            ranks@.len() == members@.len(),
            self@.ranked(cur, members@, *exploration, ranks@),
    {
        let total_rounds = self.nodes[cur.index()].n_visits;
        let mut ranks: Vec<u32> = Vec::new();
        let mut k: usize = 0;
        while k < members.len()
            invariant
                k <= members.len(),
                ranks@.len() == k,
                self@.wf(g),
                self@.has(cur),
                total_rounds >= 1,
                total_rounds == self@.nodes[cur.0 as int].n_visits,
                forall|j: int|
                    0 <= j < k ==> #[trigger] self@.ranks_member(
                        cur,
                        members@[j],
                        *exploration,
                        ranks@[j],
                    ),
            decreases members.len() - k,
        {
            let ghost earlier = ranks@;
            let rank = match child_map_get(&self.nodes[cur.index()].state, members[k]) {
                Some(child) => {
                    proof {
                        assert(self@.nodes[cur.0 as int].children.contains_key(members@[k as int]));
                    }
                    let child_node = &self.nodes[child.index()];
                    child_node.total_utility.uct_rank(child_node.n_visits, total_rounds, exploration)
                },
                None => {
                    let zero = U::zero();
                    zero.uct_rank(0, total_rounds, exploration)
                },
            };
            ranks.push(rank);
            proof {
                assert(self@.ranks_member(cur, members@[k as int], *exploration, rank));
                assert forall|j: int| 0 <= j < k + 1 implies #[trigger] self@.ranks_member(
                    cur,
                    members@[j],
                    *exploration,
                    ranks@[j],
                ) by {
                    if j < k {
                        assert(ranks@[j] == earlier[j]);
                    }
                }
            }
            k += 1;
        }
        ranks
    }

    /// The child of `cur` for `enode`, which is a member of `class`. Where
    /// `cur` has no such child yet, one is created, unless the tree is full.
    fn child_for(
        &mut self,
        cur: TreeNodeId,
        enode: NodeId,
        class: ClassId,
        Ghost(g): Ghost<GraphModel>,
    ) -> (child: Option<TreeNodeId>)
        requires
            old(self)@.wf(g),
            old(self)@.has(cur),
            (g.members)(class).contains(enode),
            class == old(self)@.nodes[cur.0 as int].queue.next_class(),
        ensures
            final(self)@.wf(g),
            old(self)@.grown_into(final(self)@),
            final(self)@.nodes.len() <= old(self)@.nodes.len() + 1,
            forall|i: int|
                0 <= i < old(self)@.nodes.len() ==> (#[trigger] final(self)@.nodes[i]).n_visits
                    == old(self)@.nodes[i].n_visits,
            forall|i: int|
                old(self)@.nodes.len() <= i < final(self)@.nodes.len() ==> (
                #[trigger] final(self)@.nodes[i]).n_visits == 0,
            child is Some ==> {
                &&& final(self)@.has(child->Some_0)
                &&& cur.0 < child->Some_0.0
                &&& final(self)@.nodes[cur.0 as int].children.contains_key(enode)
                &&& final(self)@.nodes[cur.0 as int].children[enode] == child->Some_0
                &&& final(self)@.nodes[child->Some_0.0 as int].class == class
            },
            child is None ==> final(self)@ == old(self)@ && old(self)@.nodes.len() > u32::MAX,
            child is Some ==> old(self)@.sprouted(g, cur, enode, final(self)@),
            old(self)@.nodes[cur.0 as int].children.contains_key(enode) ==> {
                &&& final(self)@ == old(self)@
                &&& child is Some
            },
            !old(self)@.nodes[cur.0 as int].children.contains_key(enode) && child is Some ==> {
                &&& final(self)@.nodes.len() == old(self)@.nodes.len() + 1
                &&& child->Some_0.0 == old(self)@.nodes.len()
                &&& final(self)@.nodes[child->Some_0.0 as int].class == class
            },
    {
        match child_map_get(&self.nodes[cur.index()].state, enode) {
            Some(child) => {
                proof {
                    assert(self@.nodes[cur.0 as int].children.contains_key(enode));
                }
                Some(child)
            },
            None => {
                if self.is_full() {
                    return None;
                }
                let ghost queue = self@.nodes[cur.0 as int].queue.advance(enode, g);
                let new = self.fresh_node(class, Ghost(queue));
                let ghost mid = self@;
                child_map_insert(&mut self.nodes[cur.index()].state, enode, new);
                proof {
                    let old_v = old(self)@;
                    let v = self@;
                    assert(v.nodes.len() == mid.nodes.len());
                    assert forall|i: int| 0 <= i < v.nodes.len() && i != cur.0 implies v.nodes[i]
                        == mid.nodes[i] by {}
                    assert(v.nodes[cur.0 as int].children == mid.nodes[cur.0 as int].children.insert(
                        enode,
                        new,
                    ));
                    assert forall|i: int| 0 <= i < old_v.nodes.len() implies mid.nodes[i]
                        == old_v.nodes[i] by {
                        assert(mid.nodes.take(new.0 as int)[i] == mid.nodes[i]);
                    }
                    assert forall|i: int, e: NodeId|
                        0 <= i < v.nodes.len() && #[trigger] v.nodes[i].children.contains_key(
                            e,
                        ) implies {
                        &&& i < v.nodes[i].children[e].0 < v.nodes.len()
                        &&& (g.members)(v.nodes[v.nodes[i].children[e].0 as int].class).contains(e)
                        &&& v.nodes[v.nodes[i].children[e].0 as int].class
                            == v.nodes[i].queue.next_class()
                        &&& v.nodes[v.nodes[i].children[e].0 as int].queue
                            == v.nodes[i].queue.advance(e, g)
                    } by {
                        assert(v.nodes[i].queue == old_v.nodes[i].queue);
                        if i == cur.0 && e == enode {
                        } else {
                            assert(old_v.nodes[i].children.contains_key(e));
                            let c = old_v.nodes[i].children[e].0 as int;
                            assert(v.nodes[c] == old_v.nodes[c] || c == cur.0);
                            assert(v.nodes[c].class == old_v.nodes[c].class);
                            assert(v.nodes[c].queue == old_v.nodes[c].queue);
                        }
                    }
                }
                Some(new)
            },
        }
    }

    /// Count one more visit, and `util` more utility, for every node of
    /// `path`, which is emptied.
    fn backpropagate(&mut self, path: &mut Vec<TreeNodeId>, util: &U)
        requires
            is_tree_path(old(self)@, old(path)@),
        ensures
            final(path)@.len() == 0,
            old(self)@.visited_along(old(path)@, 0, final(self)@),
            old(self)@.credited_along(old(path)@, 0, *util, final(self)@),
    {
        let ghost full = path@;
        let ghost start = self@;
        loop
            invariant
                path@.len() <= full.len(),
                path@ == full.take(path@.len() as int),
                is_tree_path(start, full),
                start.visited_along(full, path@.len() as int, self@),
                start.credited_along(full, path@.len() as int, *util, self@),
            ensures
                path@.len() == 0,
            decreases path@.len(),
        {
            let ghost before = self@;
            let ghost k = path@.len() - 1;
            match path.pop() {
                None => {
                    break ;
                },
                Some(node_id) => {
                    proof {
                        assert(node_id == full[k]);
                        assert(start.has(full[k]));
                    }
                    let i = node_id.index();
                    let visits = self.nodes[i].n_visits;
                    self.nodes[i].n_visits = if visits == u32::MAX {
                        visits
                    } else {
                        visits + 1
                    };
                    self.nodes[i].total_utility = self.nodes[i].total_utility.plus(util);
                    proof {
                        let v = self@;
                        assert(path@ =~= full.take(k));
                        assert forall|j: int| 0 <= j < start.nodes.len() implies if on_path(
                            full,
                            k,
                            j,
                        ) {
                            call_ensures(
                                U::plus,
                                (&start.nodes[j].total_utility, &*util),
                                (#[trigger] v.nodes[j]).total_utility,
                            )
                        } else {
                            v.nodes[j].total_utility == start.nodes[j].total_utility
                        } by {
                            if j == i {
                                assert(on_path(full, k, j));
                                if on_path(full, k + 1, j) {
                                    let m = choose|m: int|
                                        k + 1 <= m < full.len() && (#[trigger] full[m]).0 == j;
                                    assert(full[k].0 < full[m].0);
                                }
                                assert(before.nodes[j].total_utility
                                    == start.nodes[j].total_utility);
                            } else {
                                assert(v.nodes[j] == before.nodes[j]);
                                if on_path(full, k, j) {
                                    let m = choose|m: int|
                                        k <= m < full.len() && (#[trigger] full[m]).0 == j;
                                    assert(k + 1 <= m);
                                    assert(on_path(full, k + 1, j));
                                }
                                if on_path(full, k + 1, j) {
                                    let m = choose|m: int|
                                        k + 1 <= m < full.len() && (#[trigger] full[m]).0 == j;
                                    assert(on_path(full, k, j));
                                }
                            }
                        }
                        assert forall|j: int| 0 <= j < start.nodes.len() implies {
                            &&& (#[trigger] v.nodes[j]).class == start.nodes[j].class
                            &&& v.nodes[j].queue == start.nodes[j].queue
                            &&& v.nodes[j].children == start.nodes[j].children
                            &&& v.nodes[j].n_visits == if on_path(full, k, j) {
                                one_more(start.nodes[j].n_visits)
                            } else {
                                start.nodes[j].n_visits
                            }
                        } by {
                            assert(before.nodes[j].class == start.nodes[j].class);
                            assert(before.nodes[j].queue == start.nodes[j].queue);
                            if j == i {
                                assert(on_path(full, k, j));
                                if on_path(full, k + 1, j) {
                                    let m = choose|m: int|
                                        k + 1 <= m < full.len() && (#[trigger] full[m]).0 == j;
                                    assert(full[k].0 < full[m].0);
                                }
                            } else {
                                assert(v.nodes[j] == before.nodes[j]);
                                if on_path(full, k, j) {
                                    let m = choose|m: int|
                                        k <= m < full.len() && (#[trigger] full[m]).0 == j;
                                    assert(k + 1 <= m);
                                    assert(on_path(full, k + 1, j));
                                }
                                if on_path(full, k + 1, j) {
                                    let m = choose|m: int|
                                        k + 1 <= m < full.len() && (#[trigger] full[m]).0 == j;
                                    assert(on_path(full, k, j));
                                }
                            }
                        }
                    }
                },
            }
        }
    }
}

/// A search in progress: the tree, the assignment committed so far, and the
/// tree node that the committed assignment leads to.
pub struct SearchState<U> {
    tree: SearchTree<U>,
    assignment: ExtractionState,
    start_node: TreeNodeId,
    path: Vec<TreeNodeId>,
    rng: StdRng,
    terms_to_sample: usize,
    exploration_term: U,
}

/// The mathematical value of a search in progress.
pub ghost struct SearchView<U> {
    pub tree: TreeView<U>,
    pub assignment: StateView,
    pub start_node: TreeNodeId,
}

impl<U> View for SearchState<U> {
    type V = SearchView<U>;

    closed spec fn view(&self) -> SearchView<U> {
        SearchView { tree: self.tree@, assignment: self.assignment@, start_node: self.start_node }
    }
}

impl<U> SearchView<U> {
    /// The invariant of a search between playouts: the tree is sound and
    /// holds the start node, the assignment is the one that its top snapshot
    /// records, every node chosen so far is a member of its class, the root
    /// class was the first to be queued, and the start node stands for the
    /// queue of the assignment.
    pub open spec fn wf(self, g: GraphModel) -> bool {
        &&& self.tree.wf(g)
        &&& self.tree.has(self.start_node)
        &&& self.assignment.wf(g)
        &&& self.assignment.snapshots.len() > 0
        &&& self.assignment.snapshots.last() == self.assignment.frame.snapshot()
        &&& chosen_from_members(self.assignment.frame.provisional, g)
        &&& self.assignment.frame.to_visit.data.len() > 0
        &&& self.assignment.frame.to_visit.data[0] == self.tree.root_class
        &&& self.tree.nodes[self.start_node.0 as int].queue == self.assignment.frame.queue_view()
    }
}

/// The committed entries of a sound frame are chosen from the members of
/// their classes if the provisional entries are.
pub proof fn lemma_committed_are_members(
    assign: Seq<(ClassId, NodeId)>,
    prov: Seq<(ClassId, NodeId)>,
    g: GraphModel,
)
    requires
        entries_within(assign, prov),
        chosen_from_members(prov, g),
    ensures
        chosen_from_members(assign, g),
{
    assert forall|i: int| 0 <= i < assign.len() implies (g.members)(
        (#[trigger] assign[i]).0,
    ).contains(assign[i].1) by {
        assert(prov.contains(assign[i]));
        let j = choose|j: int| 0 <= j < prov.len() && prov[j] == assign[i];
        assert((g.members)(prov[j].0).contains(prov[j].1));
    }
}

/// The committed assignment of a complete state of a sound search is an
/// extraction of the root class.
pub proof fn lemma_complete_is_extraction<U>(v: SearchView<U>, g: GraphModel)
    requires
        v.wf(g),
        v.assignment.frame.is_complete(),
    ensures
        is_extraction(v.assignment.frame.assign, g, v.tree.root_class),
{
    let f = v.assignment.frame;
    let root = v.tree.root_class;
    lemma_complete_has_no_front(f, g);
    assert(has_key(f.provisional, f.to_visit.data[0]));
    lemma_complete_covers(f, g, root);
    lemma_committed_are_members(f.assign, f.provisional, g);
    assert forall|i: int| 0 <= i < f.assign.len() && (#[trigger] f.assign[i]).0
        != root implies is_named_later(f.assign, g, i) by {
        let class = f.assign[i].0;
        assert(f.provisional.contains(f.assign[i]));
        let at = choose|at: int| 0 <= at < f.provisional.len() && f.provisional[at] == f.assign[i];
        assert(f.was_queued(at));
        let j = choose|j: int|
            0 <= j < f.to_visit.front && j < f.to_visit.data.len() && #[trigger] f.to_visit.data[j]
                == f.provisional[at].0;
        assert(j >= 1);
        assert(f.has_parent(g, j));
        let up = choose|up: int|
            0 <= up < f.provisional.len() && #[trigger] (g.children)(f.provisional[up].1).contains(
                f.to_visit.data[j],
            );
        assert(key_at(f.provisional, up, f.provisional[up].0));
        lemma_complete_covers(f, g, f.provisional[up].0);
        let later = choose|later: int| key_at(f.assign, later, f.provisional[up].0);
        assert(f.provisional.contains(f.assign[later]));
        assert(f.provisional.contains(f.provisional[up]));
        lemma_entry_unique(
            f.provisional,
            f.provisional[up].0,
            f.assign[later].1,
            f.provisional[up].1,
        );
        lemma_child_comes_earlier(f.assign, g, later, i);
        assert((g.children)(f.assign[later].1).contains(f.assign[i].0));
    }
}

impl<U: Utility> SearchTree<U> {
    /// Start a search from the root of the tree, with nothing assigned.
    /// Rollouts draw from `rng`; the utility of a partial assignment is
    /// estimated from `terms_to_sample` of them.
    pub fn start_round(self, rng: StdRng, terms_to_sample: usize, exploration_term: U) -> (search:
        SearchState<U>)
        requires
            terms_to_sample >= 1,
        ensures
            search@.tree == self@,
            search@.assignment == StateView::initial(self@.root_class),
            search@.start_node == self@.root,
            search.rng() == rng,
            search.terms_to_sample() == terms_to_sample,
            search.exploration_term() == exploration_term,
            forall|g: GraphModel| #[trigger] self@.wf(g) ==> search.wf(g),
    {
        let root_class = self.root_class;
        let start_node = self.root_tree_node;
        let search = SearchState {
            tree: self,
            assignment: ExtractionState::new(root_class),
            start_node,
            path: Vec::new(),
            rng,
            terms_to_sample,
            exploration_term,
        };
        proof {
            assert forall|g: GraphModel| #[trigger] self@.wf(g) implies search.wf(g) by {
                lemma_wf_view(search.assignment, g);
            }
        }
        search
    }
}

impl<U: Utility> SearchState<U> {
    /// The generator that rollouts draw from.
    pub closed spec fn rng(&self) -> StdRng {
        self.rng
    }

    /// The number of rollouts behind an estimate.
    pub closed spec fn terms_to_sample(&self) -> usize {
        self.terms_to_sample
    }

    /// The weight of exploration in the rank of a child.
    pub closed spec fn exploration_term(&self) -> U {
        self.exploration_term
    }

    /// The invariant of a search for the graph `g`.
    pub closed spec fn wf(&self, g: GraphModel) -> bool {
        &&& self@.wf(g)
        &&& self.assignment.wf(g)
        &&& self.path@.len() == 0
        &&& self.terms_to_sample >= 1
    }

    /// The value of the assignment as it stands: its utility if it is
    /// complete, and otherwise the mean utility of a number of random
    /// completions, where one that fails counts as a utility of zero. What
    /// can be observed of the assignment is as before.
    fn estimate_util<E: EgraphTotalCost<Utility = U>>(&mut self, egraph: &E) -> (util: U)
        requires
            old(self).assignment.wf(egraph.model()),
            old(self).terms_to_sample >= 1,
        ensures
            final(self).assignment.wf(egraph.model()),
            final(self)@.tree == old(self)@.tree,
            final(self)@.start_node == old(self)@.start_node,
            final(self)@.assignment == if old(self)@.assignment.frame.is_complete() {
                old(self)@.assignment
            } else {
                old(self)@.assignment.rehydrated(egraph.model())
            },
            final(self).path == old(self).path,
            final(self).terms_to_sample == old(self).terms_to_sample,
            final(self).exploration_term == old(self).exploration_term,
            estimates(egraph, old(self)@.assignment.frame, old(self).terms_to_sample, util),
    {
        let ghost frame = self@.assignment.frame;
        proof {
            lemma_wf_view(self.assignment, egraph.model());
        }
        match self.assignment.complete_assignment() {
            Some(assign) => egraph.assignment_utility(assign),
            None => {
                let mut util = U::zero();
                let mut drawn: usize = 0;
                while drawn < self.terms_to_sample
                    invariant
                        self.assignment.wf(egraph.model()),
                        self@.tree == old(self)@.tree,
                        self@.start_node == old(self)@.start_node,
                        self@.assignment == if drawn == 0 {
                            old(self)@.assignment
                        } else {
                            old(self)@.assignment.rehydrated(egraph.model())
                        },
                        self.path == old(self).path,
                        self.terms_to_sample == old(self).terms_to_sample,
                        self.exploration_term == old(self).exploration_term,
                        frame == old(self)@.assignment.frame,
                        drawn <= self.terms_to_sample,
                        is_sum_of_samples(egraph, frame, drawn as nat, util),
                    decreases self.terms_to_sample - drawn,
                {
                    let outcome = random_cost_estimate(egraph, &mut self.assignment, &mut self.rng);
                    let ghost rolled = outcome;
                    // A failed rollout counts as a utility of zero.
                    let sample = match outcome {
                        Some(sample) => sample,
                        None => U::zero(),
                    };
                    proof {
                        if rolled is Some {
                            assert(rolled == Some(sample));
                            let found = choose|later: Frame, done: Assignment|
                                scores(egraph, frame, later, done, rolled);
                            assert(scores(egraph, frame, found.0, found.1, Some(sample)));
                        }
                        assert(is_sample(egraph, frame, sample));
                    }
                    let sum = util.plus(&sample);
                    proof {
                        assert(is_sum_of_samples(egraph, frame, drawn as nat, util));
                        assert(is_sum_of_samples(egraph, frame, (drawn + 1) as nat, sum));
                    }
                    util = sum;
                    drawn += 1;
                }
                util.mean(self.terms_to_sample)
            },
        }
    }
}

impl<U> SearchView<U> {
    /// The class that is next to be given a node.
    pub open spec fn next_class(self) -> ClassId {
        self.assignment.frame.next_class()
    }

    /// A class awaits a node and has no members.
    pub open spec fn next_class_is_empty(self, g: GraphModel) -> bool {
        self.assignment.frame.to_visit.has_front() && (g.members)(self.next_class()).len() == 0
    }

    /// A class awaits a node and the start node has no child for it.
    pub open spec fn has_no_candidate(self) -> bool {
        self.assignment.frame.to_visit.has_front() && forall|e: NodeId| !self.is_candidate(e)
    }

    /// No playout has passed through the start node.
    pub open spec fn is_unvisited(self) -> bool {
        self.tree.nodes[self.start_node.0 as int].n_visits == 0
    }

    /// The search cannot fail: all classes that it has met are on safe ground,
    /// and the tree has room for the nodes that `playouts` playouts before
    /// each of the commits to come can add.
    pub open spec fn on_safe_ground(
        self,
        g: GraphModel,
        classes: Set<ClassId>,
        rank: spec_fn(ClassId) -> nat,
        playouts: nat,
    ) -> bool {
        &&& is_safe_ground(g, classes, rank)
        &&& self.assignment.frame.within(classes)
        &&& self.tree.nodes.len() + (classes.len() - self.assignment.frame.provisional.len() + 1)
            * playouts <= u32::MAX + 1
    }

    /// The search cannot fail with `playouts` playouts before each commit:
    /// they are two at least, enough to give the start node a child, and
    /// the search is on safe ground.
    pub open spec fn is_bound_to_succeed(self, g: GraphModel, playouts: nat) -> bool {
        playouts >= 2 && exists|classes: Set<ClassId>, rank: spec_fn(ClassId) -> nat| #[trigger]
            self.on_safe_ground(g, classes, rank, playouts)
    }

    /// The next playout cannot but go from the start node to a child: the
    /// start node has been visited, a class awaits a node and has members,
    /// and the tree has room for another node.
    pub open spec fn can_grow(self, g: GraphModel) -> bool {
        &&& self.tree.nodes[self.start_node.0 as int].n_visits >= 1
        &&& self.assignment.frame.to_visit.has_front()
        &&& (g.members)(self.next_class()).len() > 0
        &&& self.tree.nodes.len() <= u32::MAX
    }

    /// The child of the start node for `enode` was recorded for the class
    /// that is next to be given a node.
    pub open spec fn is_candidate(self, enode: NodeId) -> bool {
        let children = self.tree.nodes[self.start_node.0 as int].children;
        children.contains_key(enode) && self.tree.nodes[children[enode].0 as int].class
            == self.next_class()
    }

    /// `after` is the search one level further down, by way of `enode`:
    /// `enode` leads to a most visited candidate among the children of the
    /// start node, which is the new start node; `enode` is given to the next
    /// class; and a snapshot of the resulting assignment is pushed.
    pub open spec fn stepped(self, enode: NodeId, g: GraphModel, after: SearchView<U>) -> bool {
        let children = self.tree.nodes[self.start_node.0 as int].children;
        &&& after.tree == self.tree
        &&& self.is_candidate(enode)
        &&& after.start_node == children[enode]
        &&& forall|e: NodeId| #[trigger]
            self.is_candidate(e) ==> self.tree.nodes[children[e].0 as int].n_visits
                <= self.tree.nodes[children[enode].0 as int].n_visits
        &&& self.assignment.frame.assigned(enode, g, after.assignment.frame)
        &&& after.assignment == self.assignment.assign(enode, g).push_snapshot()
    }
}

/// A tree that has grown into another, which has grown into a third, has
/// grown into the third.
pub proof fn lemma_grown_further<U>(first: TreeView<U>, second: TreeView<U>, third: TreeView<U>)
    requires
        first.grown_into(second),
        second.grown_into(third),
    ensures
        first.grown_into(third),
{
    assert forall|i: int| 0 <= i < first.nodes.len() implies (#[trigger] third.nodes[i]).class
        == first.nodes[i].class && third.nodes[i].queue == first.nodes[i].queue
        && first.nodes[i].children.submap_of(third.nodes[i].children) by {
        assert(second.nodes[i].class == first.nodes[i].class);
        assert(third.nodes[i].class == second.nodes[i].class);
        assert(first.nodes[i].children.submap_of(second.nodes[i].children));
        assert(second.nodes[i].children.submap_of(third.nodes[i].children));
        assert forall|e: NodeId| #[trigger]
            first.nodes[i].children.dom().contains(e) implies third.nodes[i].children.dom().contains(
            e,
        ) && first.nodes[i].children[e] == third.nodes[i].children[e] by {
            assert(second.nodes[i].children.dom().contains(e));
        }
    }
}

/// What one playout did: the e-nodes that it chose on its way down, the tree
/// nodes that it passed, from the start node on, the tree as the descent left
/// it, and the value that it found at the end of the path.
pub ghost struct Playout<U> {
    pub trail: Seq<NodeId>,
    pub path: Seq<TreeNodeId>,
    pub grown: TreeView<U>,
    pub leaf: U,
}

/// The descent, which has left the tree `grown`, ends at the node `last`
/// with the assignment `frame`, and finds the value `leaf` there. At a node
/// that has been visited and where a class is next, it ends because the
/// class has no members, and the value is zero, or because the tree is full.
/// Otherwise the node was never visited or no class is next, and the value
/// is the estimate for the assignment.
pub open spec fn lands<E: EgraphTotalCost>(
    egraph: &E,
    frame: Frame,
    terms: usize,
    grown: TreeView<E::Utility>,
    last: TreeNodeId,
    leaf: E::Utility,
) -> bool {
    if frame.to_visit.has_front() && grown.nodes[last.0 as int].n_visits >= 1 {
        if (egraph.model().members)(frame.next_class()).len() == 0 {
            call_ensures(<E::Utility as Utility>::zero, (), leaf)
        } else {
            grown.nodes.len() > u32::MAX && estimates(egraph, frame, terms, leaf)
        }
    } else {
        estimates(egraph, frame, terms, leaf)
    }
}

/// `after` is the search `before` after the playout `run`: the descent went
/// from the start node by the ranks of the members, the value found at its
/// end is counted, and one visit with it, for just the nodes on the path,
/// and the assignment is rolled back.
pub open spec fn played<E: EgraphTotalCost>(
    egraph: &E,
    before: SearchView<E::Utility>,
    terms: usize,
    exploration: E::Utility,
    run: Playout<E::Utility>,
    after: SearchView<E::Utility>,
) -> bool {
    let g = egraph.model();
    &&& after.start_node == before.start_node
    &&& after.assignment == before.assignment.reset(g)
    &&& run.path[0] == before.start_node
    &&& is_tree_path(run.grown, run.path)
    &&& before.tree.walked(g, exploration, run.trail, run.path, run.grown)
    &&& lands(
        egraph,
        before.assignment.assign_all(run.trail, g).frame,
        terms,
        run.grown,
        run.path.last(),
        run.leaf,
    )
    &&& run.grown.visited_along(run.path, 0, after.tree)
    &&& run.grown.credited_along(run.path, 0, run.leaf, after.tree)
}

/// `after` is the search `before` after `count` playouts.
#[verifier::opaque]
pub open spec fn played_times<E: EgraphTotalCost>(
    egraph: &E,
    before: SearchView<E::Utility>,
    terms: usize,
    exploration: E::Utility,
    count: nat,
    after: SearchView<E::Utility>,
) -> bool
    decreases count,
{
    if count == 0 {
        after == before
    } else {
        exists|mid: SearchView<E::Utility>, run: Playout<E::Utility>|
            played_times(egraph, before, terms, exploration, (count - 1) as nat, mid)
                && #[trigger] played(egraph, mid, terms, exploration, run, after)
    }
}

/// The search at `from` ran its playouts up to `round_end` and committed
/// `enode`, the e-node that leads to the most visited candidate, which took
/// it to `at`.
pub open spec fn is_round<E: EgraphTotalCost>(
    egraph: &E,
    playouts: nat,
    terms: usize,
    exploration: E::Utility,
    from: SearchView<E::Utility>,
    round_end: SearchView<E::Utility>,
    enode: NodeId,
    at: SearchView<E::Utility>,
) -> bool {
    &&& played_times(egraph, from, terms, exploration, playouts, round_end)
    &&& round_end.stepped(enode, egraph.model(), at)
}

/// `at` is the search `before` after `commits` rounds, each of `playouts`
/// playouts and a commit.
#[verifier::opaque]
pub open spec fn committed_times<E: EgraphTotalCost>(
    egraph: &E,
    before: SearchView<E::Utility>,
    playouts: nat,
    terms: usize,
    exploration: E::Utility,
    commits: nat,
    at: SearchView<E::Utility>,
) -> bool
    decreases commits,
{
    if commits == 0 {
        at == before
    } else {
        exists|from: SearchView<E::Utility>, round_end: SearchView<E::Utility>, enode: NodeId|
            committed_times(
                egraph,
                before,
                playouts,
                terms,
                exploration,
                (commits - 1) as nat,
                from,
            ) && #[trigger] is_round(
                egraph,
                playouts,
                terms,
                exploration,
                from,
                round_end,
                enode,
                at,
            )
    }
}

/// The search, which stood at `at` after `commits` commits, ran its playouts
/// once more up to `after`, where no e-node can be committed: no class
/// awaits a node, or the start node has no child for the class that does.
pub open spec fn is_last_round<E: EgraphTotalCost>(
    egraph: &E,
    before: SearchView<E::Utility>,
    playouts: nat,
    terms: usize,
    exploration: E::Utility,
    commits: nat,
    at: SearchView<E::Utility>,
    after: SearchView<E::Utility>,
) -> bool {
    &&& committed_times(egraph, before, playouts, terms, exploration, commits, at)
    &&& played_times(egraph, at, terms, exploration, playouts, after)
    &&& !after.assignment.frame.to_visit.has_front() || after.has_no_candidate()
}

/// `after` is the search `before` run to its end: some rounds of playouts
/// and a commit, and a last round of playouts after which nothing can be
/// committed.
pub open spec fn searched<E: EgraphTotalCost>(
    egraph: &E,
    before: SearchView<E::Utility>,
    playouts: nat,
    terms: usize,
    exploration: E::Utility,
    after: SearchView<E::Utility>,
) -> bool {
    exists|commits: nat, at: SearchView<E::Utility>| #[trigger]
        is_last_round(egraph, before, playouts, terms, exploration, commits, at, after)
}

impl<U> TreeView<U> {
    /// The visits of the child that the node `from` has for `enode`, and 0
    /// where it has none.
    pub open spec fn visits_by(self, from: TreeNodeId, enode: NodeId) -> u32 {
        let children = self.nodes[from.0 as int].children;
        if children.contains_key(enode) {
            self.nodes[children[enode].0 as int].n_visits
        } else {
            0
        }
    }
}

/// Where the class that is next has one member only, a playout from a
/// visited start node, in a tree with room, cannot but pass the child for
/// that member, which has one visit more after it.
pub proof fn lemma_forced_step<E: EgraphTotalCost>(
    egraph: &E,
    before: SearchView<E::Utility>,
    terms: usize,
    exploration: E::Utility,
    run: Playout<E::Utility>,
    after: SearchView<E::Utility>,
)
    requires
        before.wf(egraph.model()),
        before.can_grow(egraph.model()),
        (egraph.model().members)(before.next_class()).len() == 1,
        played(egraph, before, terms, exploration, run, after),
    ensures
        after.tree.nodes[before.start_node.0 as int].children.contains_key(
            (egraph.model().members)(before.next_class())[0],
        ),
        after.tree.visits_by(before.start_node, (egraph.model().members)(before.next_class())[0])
            == one_more(
            before.tree.visits_by(
                before.start_node,
                (egraph.model().members)(before.next_class())[0],
            ),
        ),
{
    let g = egraph.model();
    let tree = before.tree;
    let start = before.start_node;
    let at = start.0 as int;
    let members = (g.members)(before.next_class());
    let only = members[0];
    let trail = run.trail;
    let path = run.path;
    let grown = run.grown;
    assert(tree.nodes[at].queue == before.assignment.frame.queue_view());
    if trail.len() == 0 {
        assert(grown == tree);
        assert(path.last() == start);
        assert(before.assignment.assign_all(trail, g) == before.assignment);
        assert(false);
    }
    assert(tree.chooses(g, exploration, path[0], trail[0]));
    let picked = choose|ranks: Seq<u32>, best: usize| #[trigger]
        tree.picks(start, members, exploration, ranks, best, trail[0]);
    assert(picked.1 == 0);
    assert(trail[0] == only);
    assert(grown.links(trail, path, 0));
    let child = path[1];
    assert(grown.nodes[at].children[only] == child);
    assert(path[0].0 < path[1].0);
    assert(on_path(path, 0, child.0 as int));
    assert(grown.has(path[1]));
    let last = trail.len() - 1;
    assert(path[last].0 >= path[0].0) by {
        if last > 0 {
            assert(path[0].0 < path[last].0);
        }
    }
    if tree.nodes[at].children.contains_key(only) {
        if last == 0 {
            assert(grown == tree);
        } else {
            assert(path[0].0 < path[last].0);
            assert(tree.sprouted(g, path[last], trail.last(), grown));
            if grown != tree {
                assert(grown.nodes[at] == tree.nodes[at]);
                assert(tree.nodes[at].children[only].0 < tree.nodes.len());
                if child.0 != path[last].0 {
                    assert(grown.nodes[child.0 as int] == tree.nodes[child.0 as int]);
                }
            }
        }
        assert(grown.nodes[child.0 as int].n_visits == tree.nodes[child.0 as int].n_visits);
    } else {
        if last > 0 {
            assert(path[0].0 < path[last].0);
            assert(tree.sprouted(g, path[last], trail.last(), grown));
            if grown != tree {
                assert(grown.nodes[at] == tree.nodes[at]);
            }
            assert(false);
        }
        assert(tree.sprouted(g, start, only, grown));
        assert(grown.nodes[child.0 as int].n_visits == 0);
    }
}

impl<U> SearchView<U> {
    /// The first commit is forced, and the counts that lead to it are: a
    /// class is next that has one member only, two playouts or more are run
    /// before each commit, and the tree has room for the nodes that the
    /// playouts before the first commit can add.
    pub open spec fn is_forced(self, g: GraphModel, playouts: nat) -> bool {
        &&& self.assignment.frame.to_visit.has_front()
        &&& (g.members)(self.next_class()).len() == 1
        &&& playouts >= 2
        &&& self.tree.nodes.len() + playouts <= u32::MAX
    }

    /// The one member of the class that is next.
    pub open spec fn only_member(self, g: GraphModel) -> NodeId {
        (g.members)(self.next_class())[0]
    }

    /// The number of playouts, of those before the first commit and those
    /// right after it, that pass the child of the start node: all but the
    /// first one from a start node that was never visited.
    pub open spec fn passes(self, playouts: nat) -> nat {
        if self.is_unvisited() {
            (2 * playouts - 1) as nat
        } else {
            2 * playouts
        }
    }
}

/// How far a search with a forced first commit has come, as far as the
/// child for the one member is concerned: `commits` commits were made and
/// `done` playouts since, the round began at the node `at`, and the tree is
/// `now`.
#[verifier::opaque]
pub open spec fn forced_so_far<U>(
    first: SearchView<U>,
    g: GraphModel,
    playouts: nat,
    commits: nat,
    done: nat,
    at: TreeNodeId,
    now: TreeView<U>,
) -> bool {
    let start = first.start_node;
    let only = first.only_member(g);
    let base = first.tree.visits_by(start, only);
    let skipped: nat = if first.is_unvisited() {
        1
    } else {
        0
    };
    let children = now.nodes[start.0 as int].children;
    if commits == 0 {
        &&& at == start
        &&& now.nodes.len() <= first.tree.nodes.len() + done
        &&& now.nodes[start.0 as int].n_visits == visits_after(
            first.tree.nodes[start.0 as int].n_visits,
            done,
        )
        &&& if done <= skipped {
            now.visits_by(start, only) == base
        } else {
            children.contains_key(only) && now.visits_by(start, only) == visits_after(
                base,
                (done - skipped) as nat,
            )
        }
    } else {
        &&& children.contains_key(only)
        &&& if commits == 1 {
            at == children[only] && now.visits_by(start, only) == visits_after(
                base,
                (playouts - skipped + done) as nat,
            )
        } else {
            at.0 > children[only].0 && now.visits_by(start, only) == visits_after(
                base,
                first.passes(playouts),
            )
        }
    }
}

/// A playout takes a search with a forced first commit one playout
/// further.
pub proof fn lemma_forced_playout<E: EgraphTotalCost>(
    egraph: &E,
    first: SearchView<E::Utility>,
    playouts: nat,
    commits: nat,
    done: nat,
    before: SearchView<E::Utility>,
    terms: usize,
    exploration: E::Utility,
    run: Playout<E::Utility>,
    after: SearchView<E::Utility>,
)
    requires
        first.wf(egraph.model()),
        first.is_forced(egraph.model(), playouts),
        before.wf(egraph.model()),
        first.tree.grown_into(before.tree),
        commits == 0 ==> before.assignment.frame == first.assignment.frame,
        done < playouts,
        forced_so_far(first, egraph.model(), playouts, commits, done, before.start_node, before.tree),
        played(egraph, before, terms, exploration, run, after),
        before.tree.grown_into(after.tree),
        after.tree.nodes.len() <= before.tree.nodes.len() + 1,
        after.tree.nodes[before.start_node.0 as int].n_visits == one_more(
            before.tree.nodes[before.start_node.0 as int].n_visits,
        ),
        forall|i: int|
            0 <= i < before.start_node.0 ==> (#[trigger] after.tree.nodes[i]).n_visits
                == before.tree.nodes[i].n_visits,
        before.is_unvisited() ==> before.tree.visited_along(
            seq![before.start_node],
            0,
            after.tree,
        ),
    ensures
        forced_so_far(
            first,
            egraph.model(),
            playouts,
            commits,
            done + 1,
            before.start_node,
            after.tree,
        ),
{
    reveal(forced_so_far);
    let g = egraph.model();
    let start = first.start_node;
    let at = start.0 as int;
    let only = first.only_member(g);
    assert(first.tree.has(start));
    assert(before.tree.nodes[at].children.submap_of(after.tree.nodes[at].children));
    if commits == 0 {
        assert(before.next_class() == first.next_class());
        if before.is_unvisited() {
            let child = before.tree.nodes[at].children[only].0 as int;
            if before.tree.nodes[at].children.contains_key(only) {
                assert(!on_path(seq![before.start_node], 0, child)) by {
                    if on_path(seq![before.start_node], 0, child) {
                        let k = choose|k: int|
                            0 <= k < 1 && (#[trigger] seq![before.start_node][k]).0 == child;
                    }
                }
            }
        } else {
            lemma_forced_step(egraph, before, terms, exploration, run, after);
        }
    } else {
        assert(before.tree.nodes[at].children.contains_key(only));
        assert(before.tree.nodes[at].children.dom().contains(only));
        let child = before.tree.nodes[at].children[only].0 as int;
        assert(after.tree.nodes[at].children[only].0 == child);
    }
}

/// A commit takes a search with a forced first commit one commit further.
pub proof fn lemma_forced_commit<U>(
    first: SearchView<U>,
    g: GraphModel,
    playouts: nat,
    commits: nat,
    before: SearchView<U>,
    enode: NodeId,
    after: SearchView<U>,
)
    requires
        first.wf(g),
        first.is_forced(g, playouts),
        before.wf(g),
        first.tree.grown_into(before.tree),
        commits == 0 ==> before.assignment.frame == first.assignment.frame,
        forced_so_far(first, g, playouts, commits, playouts, before.start_node, before.tree),
        before.stepped(enode, g, after),
    ensures
        forced_so_far(first, g, playouts, commits + 1, 0, after.start_node, after.tree),
{
    reveal(forced_so_far);
    let start = first.start_node;
    let only = first.only_member(g);
    lemma_candidate_is_member(before, g, enode);
    if commits == 0 {
        let members = (g.members)(first.next_class());
        let k = choose|k: int| 0 <= k < members.len() && members[k] == enode;
        assert(enode == only);
    } else {
        assert(before.tree.nodes[before.start_node.0 as int].children.contains_key(enode));
    }
}

/// The first commit of a search where it is forced is made: after the
/// playouts before it the start node has a candidate.
pub proof fn lemma_forced_candidate<U>(
    first: SearchView<U>,
    g: GraphModel,
    playouts: nat,
    before: SearchView<U>,
)
    requires
        first.wf(g),
        first.is_forced(g, playouts),
        before.wf(g),
        before.assignment.frame == first.assignment.frame,
        forced_so_far(first, g, playouts, 0, playouts, before.start_node, before.tree),
    ensures
        before.is_candidate(first.only_member(g)),
{
    reveal(forced_so_far);
}

/// A search with a forced first commit starts with nothing done.
pub proof fn lemma_forced_start<U>(first: SearchView<U>, g: GraphModel, playouts: nat)
    requires
        first.wf(g),
    ensures
        forced_so_far(first, g, playouts, 0, 0, first.start_node, first.tree),
{
    reveal(forced_so_far);
}

/// After the round that follows the first commit, the child that the forced
/// commit led to has its count for good.
pub proof fn lemma_forced_end<U>(
    first: SearchView<U>,
    g: GraphModel,
    playouts: nat,
    commits: nat,
    at: TreeNodeId,
    now: TreeView<U>,
)
    requires
        first.is_forced(g, playouts),
        commits >= 1,
        forced_so_far(first, g, playouts, commits, playouts, at, now),
    ensures
        now.nodes[first.start_node.0 as int].children.contains_key(first.only_member(g)),
        now.visits_by(first.start_node, first.only_member(g)) == visits_after(
            first.tree.visits_by(first.start_node, first.only_member(g)),
            first.passes(playouts),
        ),
{
    reveal(forced_so_far);
}

/// A round of playouts and a commit is one commit more.
pub proof fn lemma_one_more_commit<E: EgraphTotalCost>(
    egraph: &E,
    before: SearchView<E::Utility>,
    playouts: nat,
    terms: usize,
    exploration: E::Utility,
    commits: nat,
    from: SearchView<E::Utility>,
    round_end: SearchView<E::Utility>,
    enode: NodeId,
    at: SearchView<E::Utility>,
)
    requires
        committed_times(egraph, before, playouts, terms, exploration, commits, from),
        played_times(egraph, from, terms, exploration, playouts, round_end),
        round_end.stepped(enode, egraph.model(), at),
    ensures
        committed_times(egraph, before, playouts, terms, exploration, commits + 1, at),
{
    reveal_with_fuel(committed_times, 2);
    let fewer = ((commits + 1) - 1) as nat;
    assert(committed_times(egraph, before, playouts, terms, exploration, fewer, from));
    assert(is_round(egraph, playouts, terms, exploration, from, round_end, enode, at));
}

/// One playout more is one more.
pub proof fn lemma_one_more_playout<E: EgraphTotalCost>(
    egraph: &E,
    before: SearchView<E::Utility>,
    terms: usize,
    exploration: E::Utility,
    count: nat,
    mid: SearchView<E::Utility>,
    run: Playout<E::Utility>,
    after: SearchView<E::Utility>,
)
    requires
        played_times(egraph, before, terms, exploration, count, mid),
        played(egraph, mid, terms, exploration, run, after),
    ensures
        played_times(egraph, before, terms, exploration, count + 1, after),
{
    reveal_with_fuel(played_times, 2);
    let fewer = ((count + 1) - 1) as nat;
    assert(fewer == count);
    assert(played_times(egraph, before, terms, exploration, fewer, mid));
}

/// No playout leaves the search as it is.
pub proof fn lemma_no_playout<E: EgraphTotalCost>(
    egraph: &E,
    before: SearchView<E::Utility>,
    terms: usize,
    exploration: E::Utility,
)
    ensures
        played_times(egraph, before, terms, exploration, 0, before),
{
    reveal_with_fuel(played_times, 1);
}

/// No commit leaves the search as it is.
pub proof fn lemma_no_commit<E: EgraphTotalCost>(
    egraph: &E,
    before: SearchView<E::Utility>,
    playouts: nat,
    terms: usize,
    exploration: E::Utility,
)
    ensures
        committed_times(egraph, before, playouts, terms, exploration, 0, before),
{
    reveal_with_fuel(committed_times, 1);
}

/// A visit count after `more` visits, none of which takes it past its
/// maximum.
pub open spec fn visits_after(n_visits: u32, more: nat) -> u32 {
    if n_visits + more >= u32::MAX {
        u32::MAX
    } else {
        (n_visits + more) as u32
    }
}

/// A descent goes on by one step.
proof fn lemma_walk_on<U: Utility>(
    tree: TreeView<U>,
    g: GraphModel,
    exploration: U,
    trail: Seq<NodeId>,
    path: Seq<TreeNodeId>,
    enode: NodeId,
    child: TreeNodeId,
    grown: TreeView<U>,
)
    requires
        tree.walked(g, exploration, trail, path, tree),
        forall|k: int| 0 <= k < path.len() ==> tree.has(#[trigger] path[k]),
        tree.chooses(g, exploration, path.last(), enode),
        tree.sprouted(g, path.last(), enode, grown),
        grown.nodes[path.last().0 as int].children.contains_key(enode),
        grown.nodes[path.last().0 as int].children[enode] == child,
    ensures
        tree.walked(g, exploration, trail.push(enode), path.push(child), grown),
{
    let trail2 = trail.push(enode);
    let path2 = path.push(child);
    let from = path.last();
    assert(path2[trail2.len() - 1] == from);
    assert(trail2.last() == enode);
    assert forall|k: int| 0 <= k < trail2.len() implies #[trigger] tree.chooses(
        g,
        exploration,
        path2[k],
        trail2[k],
    ) by {
        if k < trail.len() {
            assert(tree.chooses(g, exploration, path[k], trail[k]));
        }
    }
    assert forall|k: int| 0 <= k < trail2.len() implies #[trigger] grown.links(trail2, path2, k) by {
        if k < trail.len() {
            assert(tree.links(trail, path, k));
            assert(tree.has(path[k]));
            if !tree.nodes[from.0 as int].children.contains_key(enode) {
                if path[k].0 != from.0 {
                    assert(grown.nodes[path[k].0 as int] == tree.nodes[path[k].0 as int]);
                }
            }
        }
    }
}

/// A child stays where it is, and what it is recorded for, while the tree
/// grows.
pub proof fn lemma_leads_on<U>(
    tree: TreeView<U>,
    later: TreeView<U>,
    g: GraphModel,
    from: TreeNodeId,
    enode: NodeId,
    class: ClassId,
)
    requires
        tree.wf(g),
        tree.has(from),
        tree.grown_into(later),
        tree.leads(from, enode, class),
    ensures
        later.leads(from, enode, class),
{
    let at = from.0 as int;
    assert(tree.nodes[at].children.contains_key(enode));
    assert(tree.nodes[at].children.dom().contains(enode));
    assert(later.nodes[at].class == tree.nodes[at].class);
    assert(tree.nodes[at].children.submap_of(later.nodes[at].children));
    assert(later.nodes[at].children.dom().contains(enode));
    assert(later.nodes[at].children[enode] == tree.nodes[at].children[enode]);
    let child = tree.nodes[at].children[enode].0 as int;
    assert(0 <= child < tree.nodes.len());
    assert(later.nodes[child].class == tree.nodes[child].class);
}

/// A candidate stays one while the tree grows and the assignment stays as it
/// is.
pub proof fn lemma_candidate_stays<U>(
    before: SearchView<U>,
    after: SearchView<U>,
    g: GraphModel,
    enode: NodeId,
)
    requires
        before.tree.wf(g),
        before.tree.has(before.start_node),
        before.tree.grown_into(after.tree),
        after.start_node == before.start_node,
        after.assignment.frame == before.assignment.frame,
        before.is_candidate(enode),
    ensures
        after.is_candidate(enode),
{
    lemma_leads_on(
        before.tree,
        after.tree,
        g,
        before.start_node,
        enode,
        before.next_class(),
    );
}

/// A candidate is a member of the class that is next.
pub proof fn lemma_candidate_is_member<U>(v: SearchView<U>, g: GraphModel, enode: NodeId)
    requires
        v.tree.wf(g),
        v.tree.has(v.start_node),
        v.is_candidate(enode),
    ensures
        (g.members)(v.next_class()).contains(enode),
{
}

/// A sound search has a sound value.
proof fn lemma_wf_search<U: Utility>(search: SearchState<U>, g: GraphModel)
    requires
        search.wf(g),
    ensures
        search@.wf(g),
{
}

/// Counting visits along a path keeps a sound tree sound.
proof fn lemma_visits_keep_wf<U>(
    tree: TreeView<U>,
    path: Seq<TreeNodeId>,
    later: TreeView<U>,
    g: GraphModel,
)
    requires
        tree.wf(g),
        tree.visited_along(path, 0, later),
    ensures
        later.wf(g),
        tree.grown_into(later),
{
    assert forall|i: int, e: NodeId|
        0 <= i < later.nodes.len() && #[trigger] later.nodes[i].children.contains_key(e) implies {
        &&& i < later.nodes[i].children[e].0 < later.nodes.len()
        &&& (g.members)(later.nodes[later.nodes[i].children[e].0 as int].class).contains(e)
        &&& later.nodes[later.nodes[i].children[e].0 as int].class
            == later.nodes[i].queue.next_class()
        &&& later.nodes[later.nodes[i].children[e].0 as int].queue
            == later.nodes[i].queue.advance(e, g)
    } by {
        assert(tree.nodes[i].children.contains_key(e));
        let c = tree.nodes[i].children[e].0 as int;
        assert(later.nodes[c].class == tree.nodes[c].class);
        assert(later.nodes[c].queue == tree.nodes[c].queue);
    }
}

impl<U: Utility> SearchState<U> {
    /// Pick the next node in the assignment based on the data in the current
    /// playouts: among the children of the start node that were recorded for
    /// the class that is next, one with the most visits (of several, the one
    /// that comes last among the members of the class).
    ///
    /// Returns `Some(false)` if no class awaits a node, and `None` if one
    /// does and the start node has no child for it.
    fn pick_node<E: EgraphTotalCost<Utility = U>>(&mut self, egraph: &E) -> (picked: Option<bool>)
        requires
            old(self).wf(egraph.model()),
        ensures
            final(self).wf(egraph.model()),
            picked == Some(false) <==> !old(self)@.assignment.frame.to_visit.has_front(),
            picked != Some(true) ==> final(self)@ == old(self)@,
            picked is None ==> forall|e: NodeId| !old(self)@.is_candidate(e),
            picked == Some(true) ==> exists|enode: NodeId| #[trigger]
                old(self)@.stepped(enode, egraph.model(), final(self)@),
            final(self).terms_to_sample == old(self).terms_to_sample,
            final(self).exploration_term == old(self).exploration_term,
    {
        let ghost g = egraph.model();
        let ghost v0 = self@;
        proof {
            lemma_wf_view(self.assignment, g);
        }
        // Look at the current start node and pick the child with the highest
        // number of visits.
        let handle = match self.assignment.start_next_assign() {
            None => {
                return Some(false);
            },
            Some(handle) => handle,
        };
        let class = *handle.class();
        let members = egraph.members(&class);
        let ghost children = v0.tree.nodes[v0.start_node.0 as int].children;
        let mut best: Option<(NodeId, TreeNodeId)> = None;
        let mut best_visits: u32 = 0;
        let mut k: usize = 0;
        while k < members.len()
            invariant
                k <= members.len(),
                self.tree@ == v0.tree,
                self.start_node == v0.start_node,
                v0.tree.wf(g),
                v0.tree.has(v0.start_node),
                class == v0.next_class(),
                members@ == (g.members)(class),
                children == v0.tree.nodes[v0.start_node.0 as int].children,
                best is Some ==> v0.is_candidate(best->Some_0.0) && children[best->Some_0.0]
                    == best->Some_0.1 && best_visits
                    == v0.tree.nodes[best->Some_0.1.0 as int].n_visits,
                forall|i: int|
                    0 <= i < k && v0.is_candidate(#[trigger] members@[i]) ==> best is Some
                        && v0.tree.nodes[children[members@[i]].0 as int].n_visits <= best_visits,
            decreases members.len() - k,
        {
            let enode = members[k];
            match child_map_get(&self.tree.nodes[self.start_node.index()].state, enode) {
                Some(child) => {
                    proof {
                        assert(children.contains_key(enode));
                    }
                    let child_node = &self.tree.nodes[child.index()];
                    if child_node.class == class {
                        if best.is_none() || child_node.n_visits >= best_visits {
                            best = Some((enode, child));
                            best_visits = child_node.n_visits;
                        }
                    }
                },
                None => {},
            }
            k += 1;
        }
        proof {
            assert forall|e: NodeId| #[trigger] v0.is_candidate(e) implies best is Some
                && v0.tree.nodes[children[e].0 as int].n_visits <= best_visits by {
                lemma_candidate_is_member(v0, g, e);
                let i = choose|i: int| 0 <= i < members@.len() && members@[i] == e;
                assert(v0.is_candidate(members@[i]));
            }
        }
        match best {
            None => None,
            Some((next_enode, next_tree_node)) => {
                handle.assign(next_enode, egraph);
                self.start_node = next_tree_node;
                let ghost mid = self.assignment;
                self.assignment.push_snapshot();
                proof {
                    assert(mid.wf(g));
                    lemma_wf_view(self.assignment, g);
                    lemma_candidate_is_member(v0, g, next_enode);
                    lemma_assign_advances_queue(v0.assignment, next_enode, g);
                    let prov0 = v0.assignment.frame.provisional;
                    let prov = self@.assignment.frame.provisional;
                    assert forall|i: int| 0 <= i < prov.len() implies (g.members)(
                        (#[trigger] prov[i]).0,
                    ).contains(prov[i].1) by {
                        if i < prov0.len() {
                            assert(prov[i] == prov0[i]);
                        }
                    }
                    assert(self@.assignment.frame.to_visit.data[0]
                        == v0.assignment.frame.to_visit.data[0]);
                    assert(v0.stepped(next_enode, g, self@));
                }
                Some(true)
            },
        }
    }

    /// The core of the MCTS loop: iterate through the tree, simulate a run,
    /// then backpropagate information up the tree.
    ///
    /// From the start node the playout follows, at each visited node, a
    /// member of the next class with the highest rank, and gives it to the
    /// class. It stops at a node that was never visited, at a class without
    /// members, or when no class awaits a node; the value found there is
    /// counted for every node passed. The assignment is then rolled back.
    /// What the playout did, node by node, is told by [`played`].
    fn run_playout<E: EgraphTotalCost<Utility = U>>(&mut self, egraph: &E)
        requires
            old(self).wf(egraph.model()),
        ensures
            final(self).wf(egraph.model()),
            final(self)@.assignment == old(self)@.assignment.reset(egraph.model()),
            final(self)@.assignment.looks_like(old(self)@.assignment),
            final(self)@.start_node == old(self)@.start_node,
            old(self)@.tree.grown_into(final(self)@.tree),
            final(self)@.tree.nodes[old(self)@.start_node.0 as int].n_visits == one_more(
                old(self)@.tree.nodes[old(self)@.start_node.0 as int].n_visits,
            ),
            old(self)@.is_unvisited() ==> old(self)@.tree.visited_along(
                seq![old(self)@.start_node],
                0,
                final(self)@.tree,
            ),
            final(self)@.tree.nodes.len() <= old(self)@.tree.nodes.len() + 1,
            old(self)@.can_grow(egraph.model()) ==> exists|e: NodeId| #[trigger]
                final(self)@.is_candidate(e),
            final(self).terms_to_sample == old(self).terms_to_sample,
            final(self).exploration_term == old(self).exploration_term,
            forall|i: int|
                0 <= i < old(self)@.start_node.0 ==> (#[trigger] final(self)@.tree.nodes[i]).n_visits
                    == old(self)@.tree.nodes[i].n_visits,
            exists|run: Playout<U>| #[trigger]
                played(
                    egraph,
                    old(self)@,
                    old(self).terms_to_sample,
                    old(self).exploration_term,
                    run,
                    final(self)@,
                ),
    {
        let ghost g = egraph.model();
        let ghost v0 = self@;
        let ghost state0 = self.assignment@;
        let ghost tree0 = self.tree@;
        proof {
            lemma_wf_view(self.assignment, g);
        }
        // NB: we use the `path` vector to store nodes we have visited along
        // the way instead of recursion. Terms can have a lot of nodes and we
        // don't want to blow the stack.
        let mut cur_node_id = self.start_node;
        self.path.push(cur_node_id);
        assert(self.path@ =~= seq![self.start_node]);
        let mut leaf_util: Option<U> = None;
        let ghost mut descended = false;
        let ghost mut via: NodeId = 0;
        let ghost mut trail: Seq<NodeId> = Seq::empty();
        let ghost terms = self.terms_to_sample;
        let ghost exploration = self.exploration_term;
        loop
            invariant_except_break
                self.assignment@ == state0.assign_all(trail, g),
                leaf_util is None,
            invariant
                terms == old(self).terms_to_sample,
                exploration == old(self).exploration_term,
                self.terms_to_sample == terms,
                self.exploration_term == exploration,
                tree0.walked(g, exploration, trail, self.path@, self.tree@),
                self.assignment@.frame == state0.assign_all(trail, g).frame,
                g == egraph.model(),
                state0 == old(self)@.assignment,
                tree0 == old(self)@.tree,
                self.tree@.nodes.len() <= tree0.nodes.len() + 1,
                self.tree@.nodes.len() == tree0.nodes.len() + 1 ==> self.tree@.nodes[
                    cur_node_id.0 as int
                ].n_visits == 0,
                !descended ==> cur_node_id == self.start_node && self.assignment@.frame
                    == state0.frame && self.tree@.nodes.len() == tree0.nodes.len(),
                descended ==> self.tree@.leads(self.start_node, via, state0.frame.next_class()),
                self.assignment.wf(g),
                self.terms_to_sample >= 1,
                self.start_node == old(self).start_node,
                self.assignment@.snapshots == state0.snapshots,
                self.assignment@.frame.extends(state0.frame),
                self.tree@.wf(g),
                tree0.grown_into(self.tree@),
                forall|i: int|
                    0 <= i < tree0.nodes.len() ==> (#[trigger] self.tree@.nodes[i]).n_visits
                        == tree0.nodes[i].n_visits,
                forall|i: int|
                    tree0.nodes.len() <= i < self.tree@.nodes.len() ==> (
                    #[trigger] self.tree@.nodes[i]).n_visits == 0,
                is_tree_path(self.tree@, self.path@),
                self.path@.len() >= 1,
                self.path@[0] == self.start_node,
                self.path@.last() == cur_node_id,
                v0 == old(self)@,
                v0.is_unvisited() ==> self.tree@ == tree0 && self.path@ == seq![self.start_node],
                self.tree@.nodes[cur_node_id.0 as int].queue
                    == self.assignment@.frame.queue_view(),
            ensures
                v0.can_grow(g) ==> descended,
                match leaf_util {
                    Some(leaf) => lands(
                        egraph,
                        state0.assign_all(trail, g).frame,
                        terms,
                        self.tree@,
                        cur_node_id,
                        leaf,
                    ),
                    None => !state0.assign_all(trail, g).frame.to_visit.has_front(),
                },
            decreases usize::MAX - self.assignment@.frame.provisional.len(),
        {
            proof {
                lemma_wf_view(self.assignment, g);
            }
            let ghost tree1 = self.tree@;
            match self.assignment.start_next_assign() {
                None => {
                    break ;
                },
                Some(handle) => {
                    let total_rounds = self.tree.nodes[cur_node_id.index()].n_visits;
                    if total_rounds == 0 {
                        let cost = self.estimate_util(egraph);
                        leaf_util = Some(cost);
                        break ;
                    } else {
                        let class = *handle.class();
                        let members = egraph.members(&class);
                        let ranks = self.tree.rank_members(
                            cur_node_id,
                            members,
                            &self.exploration_term,
                            Ghost(g),
                        );
                        match select_best(&ranks) {
                            None => {
                                // There aren't any nodes in this e-class, so
                                // we can't extract.
                                let zero = U::zero();
                                leaf_util = Some(zero);
                                break ;
                            },
                            Some(best) => {
                                let enode_id = members[best];
                                proof {
                                    assert(members@.contains(members@[best as int]));
                                }
                                match self.tree.child_for(cur_node_id, enode_id, class, Ghost(g)) {
                                    None => {
                                        // No room for another tree node:
                                        // take the value of the assignment
                                        // as it stands.
                                        let cost = self.estimate_util(egraph);
                                        leaf_util = Some(cost);
                                        break ;
                                    },
                                    Some(child) => {
                                        proof {
                                            let tree2 = self.tree@;
                                            let path2 = self.path@.push(child);
                                            lemma_grown_further(tree0, tree1, tree2);
                                            assert forall|a: int, b: int|
                                                0 <= a < b < path2.len() implies (
                                            #[trigger] path2[a]).0 < (#[trigger] path2[b]).0 by {
                                                if b == self.path@.len() {
                                                    if a < b - 1 {
                                                        assert(self.path@[a].0 < self.path@[b - 1].0);
                                                    }
                                                }
                                            }
                                            assert forall|a: int|
                                                0 <= a < path2.len() implies tree2.has(
                                                #[trigger] path2[a],
                                            ) by {
                                                if a < self.path@.len() {
                                                    assert(tree1.has(self.path@[a]));
                                                }
                                            }
                                        }
                                        proof {
                                            assert(tree1 == tree0);
                                            assert(tree0.picks(
                                                cur_node_id,
                                                members@,
                                                exploration,
                                                ranks@,
                                                best,
                                                enode_id,
                                            ));
                                            assert(tree0.chooses(
                                                g,
                                                exploration,
                                                cur_node_id,
                                                enode_id,
                                            ));
                                            lemma_walk_on(
                                                tree0,
                                                g,
                                                exploration,
                                                trail,
                                                self.path@,
                                                enode_id,
                                                child,
                                                self.tree@,
                                            );
                                            assert(trail.push(enode_id).drop_last() =~= trail);
                                            trail = trail.push(enode_id);
                                        }
                                        proof {
                                            let at = self.start_node.0 as int;
                                            let tree2 = self.tree@;
                                            let next = state0.frame.next_class();
                                            if descended {
                                                assert(tree1.has(self.path@[0]));
                                                lemma_leads_on(
                                                    tree1,
                                                    tree2,
                                                    g,
                                                    self.start_node,
                                                    via,
                                                    next,
                                                );
                                            } else {
                                                via = enode_id;
                                                assert(class == next);
                                                assert(tree2.nodes[at].children[via] == child);
                                                assert(tree2.nodes[child.0 as int].class == class);
                                            }
                                            assert(tree2.leads(self.start_node, via, next));
                                            descended = true;
                                        }
                                        self.path.push(child);
                                        cur_node_id = child;
                                        handle.assign(enode_id, egraph);
                                        proof {
                                            lemma_wf_view(self.assignment, g);
                                        }
                                    },
                                }
                            },
                        }
                    }
                },
            }
        }
        let util = match leaf_util {
            Some(util) => util,
            None => {
                // We got a complete assignment.
                self.estimate_util(egraph)
            },
        };
        let ghost tree3 = self.tree@;
        let ghost full = self.path@;
        proof {
            assert(lands(
                egraph,
                state0.assign_all(trail, g).frame,
                terms,
                tree3,
                full.last(),
                util,
            ));
        }
        self.tree.backpropagate(&mut self.path, &util);
        proof {
            assert(self.path@ =~= Seq::empty());
            lemma_visits_keep_wf(tree3, full, self.tree@, g);
            lemma_wf_view(self.assignment, g);
            lemma_reset_returns_to_snapshot(state0, self.assignment@, g);
            let tree4 = self.tree@;
            assert(on_path(full, 0, v0.start_node.0 as int)) by {
                assert(full[0].0 == v0.start_node.0);
            }
            lemma_grown_further(tree0, tree3, tree4);
        }
        self.assignment.reset(egraph);
        proof {
            let run = Playout { trail, path: full, grown: tree3, leaf: util };
            assert(played(egraph, v0, terms, exploration, run, self@));
            assert forall|i: int| 0 <= i < v0.start_node.0 implies (#[trigger] self@.tree.nodes[i]).n_visits
                == tree0.nodes[i].n_visits by {
                assert(tree3.nodes[i].n_visits == tree0.nodes[i].n_visits);
                if on_path(full, 0, i) {
                    let k = choose|k: int| 0 <= k < full.len() && (#[trigger] full[k]).0 == i;
                    if k > 0 {
                        assert(full[0].0 < full[k].0);
                    }
                }
            }
            if v0.can_grow(g) {
                assert(tree3.has(full[0]));
                lemma_leads_on(
                    tree3,
                    self@.tree,
                    g,
                    self.start_node,
                    via,
                    state0.frame.next_class(),
                );
                assert(self@.assignment.frame == state0.frame);
                assert(self@.is_candidate(via));
            }
        }
    }

    /// Run the search to its end: before each class is committed, run
    /// `playouts_per_round` playouts; then commit the node that leads to the
    /// most visited child, until no class awaits a node.
    ///
    /// Returns the complete assignment, or `None` if the search came to a
    /// class for which the tree has no child, or ended with an assignment
    /// that is not complete. The former is bound to happen where the next
    /// class has no members, and where the tree has no child for the next
    /// class yet and gets none: no playout is run, or one only, from a start
    /// node that was never visited. With two playouts or more before each
    /// commit, an assignment is bound to be returned where the search is on
    /// safe ground and the tree has room: the second playout gives the start
    /// node a child for the next class, and nothing can stay uncommitted.
    /// What the search did, round by round and playout by playout, is told
    /// by [`searched`].
    pub fn assign<E: EgraphTotalCost<Utility = U>>(&mut self, options: &MctsConfig, egraph: &E) -> (found:
        Option<Assignment>)
        requires
            old(self).wf(egraph.model()),
        ensures
            final(self).wf(egraph.model()),
            final(self)@.tree.root_class == old(self)@.tree.root_class,
            old(self)@.tree.grown_into(final(self)@.tree),
            final(self)@.assignment.frame.extends(old(self)@.assignment.frame),
            found is Some <==> final(self)@.assignment.frame.is_complete(),
            found is Some ==> assignment_entries(found->Some_0)
                == final(self)@.assignment.frame.assign,
            found is Some ==> is_extraction(
                assignment_entries(found->Some_0),
                egraph.model(),
                old(self)@.tree.root_class,
            ),
            old(self)@.next_class_is_empty(egraph.model()) ==> found is None,
            options.playouts_per_round == 0 && old(self)@.has_no_candidate() ==> found is None,
            options.playouts_per_round == 1 && old(self)@.has_no_candidate()
                && old(self)@.is_unvisited() ==> found is None,
            old(self)@.assignment.frame.is_complete() ==> found is Some,
            old(self)@.is_bound_to_succeed(egraph.model(), options.playouts_per_round as nat)
                ==> found is Some,
            searched(
                egraph,
                old(self)@,
                options.playouts_per_round as nat,
                old(self).terms_to_sample(),
                old(self).exploration_term(),
                final(self)@,
            ),
            final(self)@.tree.nodes[old(self)@.start_node.0 as int].n_visits == visits_after(
                old(self)@.tree.nodes[old(self)@.start_node.0 as int].n_visits,
                options.playouts_per_round as nat,
            ),
            old(self)@.is_forced(egraph.model(), options.playouts_per_round as nat) ==> {
                &&& final(self)@.tree.nodes[old(self)@.start_node.0 as int].children.contains_key(
                    old(self)@.only_member(egraph.model()),
                )
                &&& final(self)@.tree.visits_by(
                    old(self)@.start_node,
                    old(self)@.only_member(egraph.model()),
                ) == visits_after(
                    old(self)@.tree.visits_by(
                        old(self)@.start_node,
                        old(self)@.only_member(egraph.model()),
                    ),
                    old(self)@.passes(options.playouts_per_round as nat),
                )
            },
    {
        let ghost g = egraph.model();
        let ghost terms = self.terms_to_sample;
        let ghost exploration = self.exploration_term;
        let ghost v0 = self@;
        let ghost first = self.start_node.0 as int;
        let ghost mut commits: nat = 0;
        let ghost playouts = options.playouts_per_round as nat;
        let ghost forced = v0.is_forced(g, playouts);
        proof {
            lemma_wf_search(*self, g);
            lemma_forced_start(v0, g, playouts);
            lemma_no_commit(egraph, v0, playouts, terms, exploration);
        }
        let ghost safe = old(self)@.is_bound_to_succeed(g, playouts);
        let ghost ground = choose|classes: Set<ClassId>, rank: spec_fn(ClassId) -> nat| #[trigger]
            old(self)@.on_safe_ground(g, classes, rank, playouts);
        let ghost classes = ground.0;
        let ghost rank = ground.1;
        let ghost mut room: int = (classes.len() - self@.assignment.frame.provisional.len() + 1)
            * playouts;
        loop
            invariant_except_break
                safe ==> self@.tree.nodes.len() + room <= u32::MAX + 1 && room >= (classes.len()
                    - self@.assignment.frame.provisional.len() + 1) * playouts,
                committed_times(egraph, v0, playouts, terms, exploration, commits, self@),
                forced ==> forced_so_far(v0, g, playouts, commits, 0, self@.start_node, self@.tree),
                forced && commits == 0 ==> self@.assignment.frame == v0.assignment.frame,
                if commits == 0 {
                    self@.start_node.0 == first && self@.tree.nodes[first].n_visits
                        == v0.tree.nodes[first].n_visits
                } else {
                    self@.start_node.0 > first && self@.tree.nodes[first].n_visits == visits_after(
                        v0.tree.nodes[first].n_visits,
                        playouts,
                    )
                },
            invariant
                g == egraph.model(),
                v0 == old(self)@,
                v0.wf(g),
                forced == v0.is_forced(g, playouts),
                first == v0.start_node.0,
                0 <= first < self@.tree.nodes.len(),
                terms == old(self).terms_to_sample,
                exploration == old(self).exploration_term,
                self.terms_to_sample == terms,
                self.exploration_term == exploration,
                playouts == options.playouts_per_round,
                safe == old(self)@.is_bound_to_succeed(g, playouts),
                safe ==> playouts >= 2 && is_safe_ground(g, classes, rank)
                    && self@.assignment.frame.within(classes),
                self.wf(g),
                self@.tree.root_class == old(self)@.tree.root_class,
                old(self)@.tree.grown_into(self@.tree),
                self@.assignment.frame.extends(old(self)@.assignment.frame),
                old(self)@.next_class_is_empty(g) ==> self@.assignment.looks_like(
                    old(self)@.assignment,
                ),
                options.playouts_per_round == 0 && old(self)@.has_no_candidate() ==> self@ == old(self)@,
                options.playouts_per_round == 1 && old(self)@.has_no_candidate()
                    && old(self)@.is_unvisited() ==> self@ == old(self)@,
                old(self)@.assignment.frame.is_complete() ==> self@.assignment.looks_like(
                    old(self)@.assignment,
                ),
            ensures
                !self@.assignment.frame.to_visit.has_front(),
                searched(egraph, v0, playouts, terms, exploration, self@),
                self@.tree.nodes[first].n_visits == visits_after(
                    v0.tree.nodes[first].n_visits,
                    playouts,
                ),
                forced ==> self@.tree.nodes[first].children.contains_key(v0.only_member(g))
                    && self@.tree.visits_by(v0.start_node, v0.only_member(g)) == visits_after(
                    v0.tree.visits_by(v0.start_node, v0.only_member(g)),
                    v0.passes(playouts),
                ),
            decreases usize::MAX - self@.assignment.frame.provisional.len(),
        {
            let ghost at_start = self@;
            let ghost mut candidate: NodeId = 0;
            proof {
                lemma_no_playout(egraph, at_start, terms, exploration);
                if safe {
                    lemma_within_is_bounded(self@.assignment.frame, classes);
                    let left = classes.len() - self@.assignment.frame.provisional.len();
                    assert((left + 1) * playouts >= playouts) by (nonlinear_arith)
                        requires
                            left >= 0,
                            playouts >= 0,
                    ;
                }
            }
            let mut done: usize = 0;
            while done < options.playouts_per_round
                invariant
                    g == egraph.model(),
                    v0 == old(self)@,
                    first == v0.start_node.0,
                    0 <= first < self@.tree.nodes.len(),
                    terms == old(self).terms_to_sample,
                    exploration == old(self).exploration_term,
                    self.terms_to_sample == terms,
                    self.exploration_term == exploration,
                    committed_times(egraph, v0, playouts, terms, exploration, commits, at_start),
                    played_times(egraph, at_start, terms, exploration, done as nat, self@),
                    v0.wf(g),
                    forced == v0.is_forced(g, playouts),
                    forced ==> forced_so_far(
                        v0,
                        g,
                        playouts,
                        commits,
                        done as nat,
                        at_start.start_node,
                        self@.tree,
                    ),
                    forced && commits == 0 ==> at_start.assignment.frame == v0.assignment.frame,
                    if commits == 0 {
                        at_start.start_node.0 == first && self@.tree.nodes[first].n_visits
                            == visits_after(v0.tree.nodes[first].n_visits, done as nat)
                    } else {
                        at_start.start_node.0 > first && self@.tree.nodes[first].n_visits
                            == visits_after(v0.tree.nodes[first].n_visits, playouts)
                    },
                    playouts == options.playouts_per_round,
                    safe == old(self)@.is_bound_to_succeed(g, playouts),
                    safe ==> {
                        &&& playouts >= 2
                        &&& is_safe_ground(g, classes, rank)
                        &&& at_start.assignment.frame.within(classes)
                        &&& self@.tree.nodes.len() + room - done <= u32::MAX + 1
                        &&& room >= playouts
                        &&& (done >= 1 ==> self@.tree.nodes[self@.start_node.0 as int].n_visits
                            >= 1)
                        &&& (done >= 2 && at_start.assignment.frame.to_visit.has_front()
                            ==> self@.is_candidate(candidate))
                    },
                    self.wf(g),
                    self@.tree.root_class == old(self)@.tree.root_class,
                    old(self)@.tree.grown_into(self@.tree),
                    self@.assignment.looks_like(at_start.assignment),
                    self@.start_node == at_start.start_node,
                    done <= options.playouts_per_round,
                    done == 0 ==> self@ == at_start,
                    at_start.is_unvisited() && at_start.has_no_candidate() && done <= 1
                        ==> self@.has_no_candidate(),
                decreases options.playouts_per_round - done,
            {
                let ghost before_playout = self@;
                proof {
                    assert(self@.tree.has(self@.start_node)) by {
                        lemma_wf_search(*self, g);
                    }
                    if safe && at_start.assignment.frame.to_visit.has_front() {
                        let f = before_playout.assignment.frame;
                        assert(f.to_visit.live()[0] == f.next_class());
                        assert(f.to_visit.live().contains(f.next_class()));
                        assert(f.to_visit_set.contains(f.next_class()));
                        assert(classes.contains(f.next_class()));
                    }
                }
                self.run_playout(egraph);
                proof {
                    let run = choose|run: Playout<U>| #[trigger]
                        played(egraph, before_playout, terms, exploration, run, self@);
                    lemma_one_more_playout(
                        egraph,
                        at_start,
                        terms,
                        exploration,
                        done as nat,
                        before_playout,
                        run,
                        self@,
                    );
                    if forced {
                        lemma_forced_playout(
                            egraph,
                            v0,
                            playouts,
                            commits,
                            done as nat,
                            before_playout,
                            terms,
                            exploration,
                            run,
                            self@,
                        );
                    }
                    if safe && at_start.assignment.frame.to_visit.has_front() {
                        if done >= 2 {
                            lemma_candidate_stays(before_playout, self@, g, candidate);
                        } else if done == 1 {
                            assert(before_playout.can_grow(g));
                            candidate = choose|e: NodeId| #[trigger] self@.is_candidate(e);
                        }
                    }
                    lemma_grown_further(old(self)@.tree, before_playout.tree, self@.tree);
                    if at_start.is_unvisited() && at_start.has_no_candidate() && done == 0 {
                        assert forall|e: NodeId| !self@.is_candidate(e) by {
                            assert(!before_playout.is_candidate(e));
                        }
                    }
                }
                done += 1;
            }
            let ghost before = self@;
            proof {
                if before.assignment.frame.is_complete() {
                    lemma_complete_has_no_front(before.assignment.frame, g);
                }
            }
            proof {
                assert(done as nat == playouts);
                lemma_wf_search(*self, g);
                if forced && commits == 0 {
                    lemma_forced_candidate(v0, g, playouts, before);
                }
            }
            match self.pick_node(egraph) {
                None => {
                    proof {
                        if self@.assignment.frame.is_complete() {
                            lemma_complete_has_no_front(self@.assignment.frame, g);
                        }
                        if safe {
                            assert(before.is_candidate(candidate));
                        }
                        assert(self@.has_no_candidate());
                        if forced {
                            assert(commits >= 1);
                            lemma_forced_end(v0, g, playouts, commits, at_start.start_node, self@.tree);
                        }
                        assert(is_last_round(
                            egraph,
                            v0,
                            playouts,
                            terms,
                            exploration,
                            commits,
                            at_start,
                            self@,
                        ));
                    }
                    return None;
                },
                Some(more) => {
                    if !more {
                        proof {
                            if forced {
                                assert(commits >= 1);
                                lemma_forced_end(
                                    v0,
                                    g,
                                    playouts,
                                    commits,
                                    at_start.start_node,
                                    self@.tree,
                                );
                            }
                            assert(is_last_round(
                                egraph,
                                v0,
                                playouts,
                                terms,
                                exploration,
                                commits,
                                at_start,
                                self@,
                            ));
                        }
                        break ;
                    }
                    proof {
                        let picked = choose|enode: NodeId| #[trigger]
                            before.stepped(enode, g, self@);
                        lemma_one_more_commit(
                            egraph,
                            v0,
                            playouts,
                            terms,
                            exploration,
                            commits,
                            at_start,
                            before,
                            picked,
                            self@,
                        );
                        if forced {
                            lemma_forced_commit(v0, g, playouts, commits, before, picked, self@);
                        }
                        assert(before.wf(g));
                        assert(before.tree.nodes[before.start_node.0 as int].children.contains_key(
                            picked,
                        ));
                        commits = commits + 1;
                    }
                    proof {
                        let enode = choose|enode: NodeId| #[trigger]
                            before.stepped(enode, g, self@);
                        assert(self@.assignment.frame.provisional.len()
                            == before.assignment.frame.provisional.len() + 1);
                        lemma_candidate_is_member(before, g, enode);
                        if safe {
                            let f = before.assignment.frame;
                            assert(f.to_visit.live()[0] == f.next_class());
                            assert(f.to_visit.live().contains(f.next_class()));
                            lemma_dispatch_stays_within(
                                f,
                                before.assignment.watchers,
                                enode,
                                g,
                                classes,
                                rank,
                            );
                            let left = classes.len() - f.provisional.len();
                            assert((left + 1) * playouts == left * playouts + playouts)
                                by (nonlinear_arith);
                            room = room - playouts;
                        }
                    }
                },
            }
        }
        proof {
            if safe {
                lemma_safe_ground_completes(self@.assignment.frame, g, classes, rank);
            }
            if self@.assignment.frame.is_complete() {
                lemma_complete_is_extraction(self@, g);
                lemma_complete_has_no_front(self@.assignment.frame, g);
            }
        }
        match self.assignment.complete_assignment() {
            Some(assign) => Some(assignment_clone(assign)),
            None => None,
        }
    }
}

} // verus!

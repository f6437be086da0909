use mcts_extract::assignment::Assignment;
use mcts_extract::egraph::Utility;
use mcts_extract::extraction_state::ExtractionState;
use mcts_extract::simple_egraph::{ScoreFn, SimpleEgraph};

struct Unit;

impl Utility for Unit {
    fn zero() -> Self {
        Unit
    }

    fn default_exploration() -> Self {
        Unit
    }

    fn plus(&self, _other: &Self) -> Self {
        Unit
    }

    fn mean(&self, _samples: usize) -> Self {
        Unit
    }

    fn uct_rank(&self, _child_visits: u32, _parent_visits: u32, _exploration: &Self) -> u32 {
        0
    }
}

struct NoScore;

impl ScoreFn for NoScore {
    type Utility = Unit;

    fn score(&self, _assignment: &Assignment, _egraph: &SimpleEgraph<Self>) -> Unit {
        Unit
    }
}

fn chain() -> SimpleEgraph<NoScore> {
    SimpleEgraph {
        nodes: vec![vec![1], vec![2], vec![]],
        classes: vec![vec![0], vec![1], vec![2]],
        score_fn: NoScore,
    }
}

#[test]
fn chain_commits_when_leaf_is_reached() {
    let egraph = chain();
    let mut state = ExtractionState::new(0);
    assert!(state.complete_assignment().is_none());
    let handle = state.start_next_assign().expect("root awaits a node");
    assert_eq!(*handle.class(), 0);
    handle.assign(0, &egraph);
    assert!(state.complete_assignment().is_none());
    let handle = state.start_next_assign().expect("class 1 awaits a node");
    assert_eq!(*handle.class(), 1);
    handle.assign(1, &egraph);
    assert!(state.complete_assignment().is_none());
    let handle = state.start_next_assign().expect("class 2 awaits a node");
    assert_eq!(*handle.class(), 2);
    handle.assign(2, &egraph);
    assert!(state.start_next_assign().is_none());
    let done = state.complete_assignment().expect("the chain is complete");
    let entries: Vec<(usize, usize)> = done.iter().map(|(c, n)| (*c, *n)).collect();
    assert_eq!(entries, vec![(2, 2), (1, 1), (0, 0)]);
}

#[test]
fn reset_returns_to_the_snapshot() {
    let egraph = chain();
    let mut state = ExtractionState::new(0);
    state.start_next_assign().unwrap().assign(0, &egraph);
    state.push_snapshot();
    state.start_next_assign().unwrap().assign(1, &egraph);
    state.start_next_assign().unwrap().assign(2, &egraph);
    assert_eq!(state.complete_assignment().map(|a| a.len()), Some(3));
    state.reset(&egraph);
    assert!(state.complete_assignment().is_none());
    assert_eq!(*state.start_next_assign().unwrap().class(), 1);
    state.start_next_assign().unwrap().assign(1, &egraph);
    state.start_next_assign().unwrap().assign(2, &egraph);
    assert_eq!(state.complete_assignment().map(|a| a.len()), Some(3));
    state.reset(&egraph);
    state.pop_snapshot();
    state.reset(&egraph);
    assert_eq!(*state.start_next_assign().unwrap().class(), 0);
}

fn entries(assignment: &Assignment) -> Vec<(usize, usize)> {
    assignment.iter().map(|(c, n)| (*c, *n)).collect()
}

#[test]
fn new_state_awaits_the_root_only() {
    let egraph = chain();
    let mut state = ExtractionState::new(5);
    assert!(state.complete_assignment().is_none());
    assert_eq!(*state.start_next_assign().unwrap().class(), 5);
    // The snapshot taken at creation is still there after one is pushed and
    // popped.
    state.push_snapshot();
    state.pop_snapshot();
    state.start_next_assign().unwrap().assign(2, &egraph);
    assert_eq!(state.complete_assignment().map(entries), Some(vec![(5, 2)]));
    state.reset(&egraph);
    assert!(state.complete_assignment().is_none());
    assert_eq!(*state.start_next_assign().unwrap().class(), 5);
}

#[test]
fn node_waits_for_all_its_children() {
    // Node 0 needs classes 1 and 2; it is committed when the second of them
    // is, after having watched the first.
    let egraph = SimpleEgraph {
        nodes: vec![vec![1, 2], vec![], vec![]],
        classes: vec![vec![0], vec![1], vec![2]],
        score_fn: NoScore,
    };
    let mut state = ExtractionState::new(0);
    state.start_next_assign().unwrap().assign(0, &egraph);
    assert!(state.complete_assignment().is_none());
    assert_eq!(*state.start_next_assign().unwrap().class(), 1);
    state.start_next_assign().unwrap().assign(1, &egraph);
    assert!(state.complete_assignment().is_none());
    assert_eq!(*state.start_next_assign().unwrap().class(), 2);
    state.start_next_assign().unwrap().assign(2, &egraph);
    assert!(state.start_next_assign().is_none());
    assert_eq!(
        state.complete_assignment().map(entries),
        Some(vec![(1, 1), (2, 2), (0, 0)])
    );
}

#[test]
fn commit_sets_free_a_chain_of_waiting_nodes() {
    // 0 waits for 1, 1 waits for 2, 3 waits for 2 as well.
    let egraph = SimpleEgraph {
        nodes: vec![vec![1, 3], vec![2], vec![], vec![2]],
        classes: vec![vec![0], vec![1], vec![2], vec![3]],
        score_fn: NoScore,
    };
    let mut state = ExtractionState::new(0);
    state.start_next_assign().unwrap().assign(0, &egraph);
    state.start_next_assign().unwrap().assign(1, &egraph);
    assert_eq!(*state.start_next_assign().unwrap().class(), 3);
    state.start_next_assign().unwrap().assign(3, &egraph);
    assert!(state.complete_assignment().is_none());
    assert_eq!(*state.start_next_assign().unwrap().class(), 2);
    state.start_next_assign().unwrap().assign(2, &egraph);
    // Class 2 sets free class 1, which sets free class 0 as far as class 3;
    // then class 3, which sets free class 0 for good.
    assert_eq!(
        state.complete_assignment().map(entries),
        Some(vec![(2, 2), (1, 1), (3, 3), (0, 0)])
    );
}

/// Each class has one node, of the same number. Classes 1 and 5 both come to
/// wait for class 4: class 5 from the start, class 1 once class 3 is
/// committed.
fn two_watchers() -> SimpleEgraph<NoScore> {
    SimpleEgraph {
        nodes: vec![
            vec![1, 2],
            vec![3, 4],
            vec![5],
            vec![6],
            vec![7],
            vec![4],
            vec![],
            vec![],
        ],
        classes: (0..8).map(|class| vec![class]).collect(),
        score_fn: NoScore,
    }
}

fn assign_next(state: &mut ExtractionState, egraph: &SimpleEgraph<NoScore>) -> usize {
    let handle = state.start_next_assign().expect("a class awaits a node");
    let class = *handle.class();
    handle.assign(class, egraph);
    class
}

#[test]
fn watchers_are_set_free_in_the_order_of_filing() {
    let egraph = two_watchers();
    let mut state = ExtractionState::new(0);
    let mut order = Vec::new();
    while state.start_next_assign().is_some() {
        order.push(assign_next(&mut state, &egraph));
    }
    assert_eq!(order, vec![0, 1, 2, 3, 4, 5, 6, 7]);
    // Class 5 was filed under class 4 before class 1 was moved there.
    assert_eq!(
        state.complete_assignment().map(entries),
        Some(vec![(6, 6), (3, 3), (7, 7), (4, 4), (5, 5), (2, 2), (1, 1), (0, 0)])
    );
}

#[test]
fn reset_files_watchers_in_the_order_of_dispatch() {
    let egraph = two_watchers();
    let mut state = ExtractionState::new(0);
    for expected in 0..7 {
        assert_eq!(assign_next(&mut state, &egraph), expected);
    }
    state.push_snapshot();
    assert_eq!(assign_next(&mut state, &egraph), 7);
    assert_eq!(
        state.complete_assignment().map(entries),
        Some(vec![(6, 6), (3, 3), (7, 7), (4, 4), (5, 5), (2, 2), (1, 1), (0, 0)])
    );
    state.reset(&egraph);
    assert!(state.complete_assignment().is_none());
    assert_eq!(assign_next(&mut state, &egraph), 7);
    // The same classes are committed; class 1, dispatched before class 5, now
    // comes before it.
    assert_eq!(
        state.complete_assignment().map(entries),
        Some(vec![(6, 6), (3, 3), (7, 7), (4, 4), (1, 1), (5, 5), (2, 2), (0, 0)])
    );
}

#[test]
fn child_classes_are_queued_once() {
    // Node 0 names class 1 twice and its own class; node 1 names class 1, which
    // has a provisional node by then, and class 2 twice.
    let egraph = SimpleEgraph {
        nodes: vec![vec![1, 1, 0], vec![1, 2, 2], vec![]],
        classes: vec![vec![0], vec![1], vec![2]],
        score_fn: NoScore,
    };
    let mut state = ExtractionState::new(0);
    state.start_next_assign().unwrap().assign(0, &egraph);
    assert_eq!(*state.start_next_assign().unwrap().class(), 1);
    state.start_next_assign().unwrap().assign(1, &egraph);
    assert_eq!(*state.start_next_assign().unwrap().class(), 2);
    state.start_next_assign().unwrap().assign(2, &egraph);
    assert!(state.start_next_assign().is_none());
    // Classes 0 and 1 each wait for themselves: only class 2 is committed.
    assert!(state.complete_assignment().is_none());
}

#[test]
fn cycle_is_never_complete() {
    let egraph = SimpleEgraph {
        nodes: vec![vec![1], vec![0]],
        classes: vec![vec![0], vec![1]],
        score_fn: NoScore,
    };
    let mut state = ExtractionState::new(0);
    state.start_next_assign().unwrap().assign(0, &egraph);
    state.start_next_assign().unwrap().assign(1, &egraph);
    assert!(state.start_next_assign().is_none());
    assert!(state.complete_assignment().is_none());
}

#[test]
fn complete_needs_an_empty_queue_and_no_pending_entry() {
    let egraph = SimpleEgraph {
        nodes: vec![vec![], vec![1]],
        classes: vec![vec![0, 1], vec![2]],
        score_fn: NoScore,
    };
    // A leaf for the root: nothing pending, nothing queued.
    let mut state = ExtractionState::new(0);
    state.start_next_assign().unwrap().assign(0, &egraph);
    assert_eq!(state.complete_assignment().map(entries), Some(vec![(0, 0)]));
    // A node with a child: one entry pending and one class queued.
    let mut state = ExtractionState::new(0);
    state.start_next_assign().unwrap().assign(1, &egraph);
    assert!(state.complete_assignment().is_none());
    assert!(state.start_next_assign().is_some());
}

#[test]
fn reset_twice_is_reset_once() {
    let egraph = SimpleEgraph {
        nodes: vec![vec![1, 2], vec![], vec![]],
        classes: vec![vec![0], vec![1], vec![2]],
        score_fn: NoScore,
    };
    let mut state = ExtractionState::new(0);
    state.start_next_assign().unwrap().assign(0, &egraph);
    state.start_next_assign().unwrap().assign(1, &egraph);
    state.push_snapshot();
    state.start_next_assign().unwrap().assign(2, &egraph);
    assert_eq!(state.complete_assignment().map(|a| a.len()), Some(3));
    state.reset(&egraph);
    state.reset(&egraph);
    assert!(state.complete_assignment().is_none());
    assert_eq!(*state.start_next_assign().unwrap().class(), 2);
    state.start_next_assign().unwrap().assign(2, &egraph);
    assert_eq!(
        state.complete_assignment().map(entries),
        Some(vec![(1, 1), (2, 2), (0, 0)])
    );
}

#[test]
fn reset_without_a_snapshot_changes_nothing() {
    let egraph = chain();
    let mut state = ExtractionState::new(0);
    state.start_next_assign().unwrap().assign(0, &egraph);
    state.pop_snapshot();
    state.pop_snapshot();
    state.reset(&egraph);
    assert_eq!(*state.start_next_assign().unwrap().class(), 1);
    state.start_next_assign().unwrap().assign(1, &egraph);
    state.start_next_assign().unwrap().assign(2, &egraph);
    assert_eq!(state.complete_assignment().map(|a| a.len()), Some(3));
}

#[test]
fn nested_snapshots_unwind_in_turn() {
    let egraph = chain();
    let mut state = ExtractionState::new(0);
    state.start_next_assign().unwrap().assign(0, &egraph);
    state.push_snapshot();
    state.start_next_assign().unwrap().assign(1, &egraph);
    state.push_snapshot();
    state.start_next_assign().unwrap().assign(2, &egraph);
    assert!(state.complete_assignment().is_some());
    state.reset(&egraph);
    assert_eq!(*state.start_next_assign().unwrap().class(), 2);
    state.pop_snapshot();
    state.reset(&egraph);
    assert_eq!(*state.start_next_assign().unwrap().class(), 1);
    state.pop_snapshot();
    state.reset(&egraph);
    assert_eq!(*state.start_next_assign().unwrap().class(), 0);
}

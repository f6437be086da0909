use mcts_extract::extraction_state::{random_cost_estimate, ExtractionState};
use mcts_extract::search_tree::SearchTree;
use mcts_extract::simple_egraph::{ScoreFn, SimpleEgraph};
use mcts_extract::{mcts_extract, Assignment, Egraph, EgraphTotalCost, MctsConfig, Utility};
use ordered_float::NotNan;
use rand::rngs::StdRng;
use rand::SeedableRng;

/// A utility that is a 32-bit float, never NaN.
#[derive(Clone, Copy, Debug, PartialEq)]
struct Score(NotNan<f32>);

fn cast_util(n: u32) -> NotNan<f32> {
    NotNan::new(n as f32).unwrap()
}

fn uct_score(
    child_rounds: u32,
    child_avg_utility: NotNan<f32>,
    total_rounds: u32,
    c: NotNan<f32>,
) -> NotNan<f32> {
    let n_visits = std::cmp::max(child_rounds, 1) as f32;
    let exploration_term = c * NotNan::new(((total_rounds as f32).ln() / n_visits).sqrt()).unwrap();
    child_avg_utility + exploration_term
}

/// An integer that orders as the float does.
fn rank_of(x: NotNan<f32>) -> u32 {
    let bits = (x.into_inner() + 0.0).to_bits();
    if bits & 0x8000_0000 != 0 {
        !bits
    } else {
        bits | 0x8000_0000
    }
}

impl Utility for Score {
    fn zero() -> Self {
        Score(NotNan::default())
    }

    fn default_exploration() -> Self {
        Score(NotNan::new(2.0f32.sqrt()).unwrap())
    }

    fn plus(&self, other: &Self) -> Self {
        Score(self.0 + other.0)
    }

    fn mean(&self, samples: usize) -> Self {
        Score(self.0 / NotNan::new(samples as f32).unwrap())
    }

    fn uct_rank(&self, child_visits: u32, parent_visits: u32, exploration: &Self) -> u32 {
        let avg = self.0 / cast_util(std::cmp::max(child_visits, 1));
        rank_of(uct_score(child_visits, avg, parent_visits, exploration.0))
    }
}

/// Simple score function used in some tests.
struct OneTerm;

impl ScoreFn for OneTerm {
    type Utility = Score;

    fn score(&self, assignment: &Assignment, _: &SimpleEgraph<Self>) -> Score {
        if assignment.get(&0) == Some(&1)
            && assignment.get(&2) == Some(&4)
            && assignment.get(&3) == Some(&5)
        {
            Score(NotNan::new(1.0).unwrap())
        } else {
            Score(NotNan::new(0.0).unwrap())
        }
    }
}

/// Scores an assignment by the number of its entries.
struct Size;

impl ScoreFn for Size {
    type Utility = Score;

    fn score(&self, assignment: &Assignment, _: &SimpleEgraph<Self>) -> Score {
        Score(cast_util(assignment.len() as u32))
    }
}

fn high_util_graph() -> SimpleEgraph<OneTerm> {
    SimpleEgraph {
        nodes: vec![
            vec![2, 1],
            vec![2, 2],
            vec![2, 3],
            vec![3],
            vec![3, 3],
            vec![],
        ],
        classes: vec![vec![0, 1], vec![2, 3], vec![4], vec![5]],
        score_fn: OneTerm,
    }
}

fn unextractable_graph() -> SimpleEgraph<OneTerm> {
    SimpleEgraph {
        nodes: vec![
            vec![0, 1],
            vec![2, 2],
            vec![3, 2],
            vec![0, 3],
            vec![1, 0],
            vec![2, 3, 1],
        ],
        classes: vec![vec![0, 1], vec![2, 3], vec![4], vec![5]],
        score_fn: OneTerm,
    }
}

fn entries(assignment: &Assignment) -> Vec<(usize, usize)> {
    assignment.iter().map(|(c, n)| (*c, *n)).collect()
}

/// Whether `assignment` is an extraction of `root` from `egraph`: a node for
/// the root, each node a member of its class, each child class of a node
/// among the entries before it.
fn is_extraction<S>(assignment: &Assignment, egraph: &SimpleEgraph<S>, root: usize) -> bool {
    let list = entries(assignment);
    assignment.contains_key(&root)
        && list.iter().enumerate().all(|(i, (class, node))| {
            egraph.members(class).contains(node)
                && egraph
                    .children(node)
                    .iter()
                    .all(|child| list[..i].iter().any(|(c, _)| c == child))
                && (*class == root
                    || list[i + 1..]
                        .iter()
                        .any(|(_, parent)| egraph.children(parent).contains(class)))
        })
}

#[test]
fn finds_high_util() {
    // Set up a simple egraph with a single term with positive utility.
    let egraph = high_util_graph();

    let assign = mcts_extract(
        &egraph,
        0,
        MctsConfig {
            playouts_per_round: 4,
            terms_to_sample: 4,
        },
    )
    .expect("extraction should succeed");
    assert_eq!(assign.len(), 3);
    assert_eq!(assign[&0], 1);
    assert_eq!(assign[&2], 4);
    assert_eq!(assign[&3], 5);
}

#[test]
fn fails_unextractable() {
    // Set up a small egraph with no valid extractions
    let egraph = unextractable_graph();

    assert!(mcts_extract(
        &egraph,
        0,
        MctsConfig {
            playouts_per_round: 4,
            terms_to_sample: 4,
        },
    )
    .is_none());
}

#[test]
fn finds_high_util_for_every_seed_tried() {
    let egraph = high_util_graph();
    let config = MctsConfig {
        playouts_per_round: 4,
        terms_to_sample: 4,
    };
    for seed in 0..50u64 {
        let tree = SearchTree::<Score>::new(0);
        let mut search = tree.start_round(StdRng::seed_from_u64(seed), 4, Score::default_exploration());
        let assign = search.assign(&config, &egraph).expect("extraction should succeed");
        let mut found = entries(&assign);
        found.sort();
        assert_eq!(found, vec![(0, 1), (2, 4), (3, 5)]);
        assert!(is_extraction(&assign, &egraph, 0));
    }
}

#[test]
fn same_seed_gives_same_result() {
    let egraph = SimpleEgraph {
        nodes: vec![vec![1, 2], vec![2], vec![], vec![1], vec![], vec![3]],
        classes: vec![vec![0, 3], vec![1, 4], vec![2, 5], vec![]],
        score_fn: Size,
    };
    let config = MctsConfig {
        playouts_per_round: 6,
        terms_to_sample: 3,
    };
    for seed in [3u64, 17, 4242] {
        let run = || {
            let tree = SearchTree::<Score>::new(0);
            let mut search =
                tree.start_round(StdRng::seed_from_u64(seed), 3, Score::default_exploration());
            search.assign(&config, &egraph).map(|a| entries(&a))
        };
        let first = run();
        assert_eq!(first, run());
        let found = first.expect("the graph has an extraction");
        assert!(found.iter().any(|(class, _)| *class == 0));
    }
}

#[test]
fn rollout_with_same_seed_gives_same_utility() {
    let egraph = SimpleEgraph {
        nodes: vec![vec![1, 2], vec![2], vec![], vec![1], vec![], vec![3]],
        classes: vec![vec![0, 3], vec![1, 4], vec![2, 5], vec![]],
        score_fn: Size,
    };
    for seed in 0..20u64 {
        let mut state = ExtractionState::new(0);
        let first = random_cost_estimate(&egraph, &mut state, &mut StdRng::seed_from_u64(seed));
        let second = random_cost_estimate(&egraph, &mut state, &mut StdRng::seed_from_u64(seed));
        assert_eq!(first, second);
    }
}

#[test]
fn empty_root_class_gives_none() {
    let egraph = SimpleEgraph {
        nodes: vec![vec![]],
        classes: vec![vec![]],
        score_fn: Size,
    };
    let config = MctsConfig {
        playouts_per_round: 4,
        terms_to_sample: 4,
    };
    assert!(mcts_extract(&egraph, 0, config).is_none());
}

#[test]
fn class_beyond_the_table_has_no_members() {
    let egraph = SimpleEgraph {
        nodes: vec![vec![7]],
        classes: vec![vec![0]],
        score_fn: Size,
    };
    assert!(egraph.members(&7).is_empty());
    assert!(egraph.children(&3).is_empty());
    assert_eq!(egraph.children(&0), &[7]);
    let config = MctsConfig {
        playouts_per_round: 4,
        terms_to_sample: 2,
    };
    assert!(mcts_extract(&egraph, 0, config).is_none());
}

#[test]
fn search_avoids_the_empty_class() {
    // Class 0 can pick node 0, which needs the empty class 1, or node 1,
    // which needs class 2.
    let egraph = SimpleEgraph {
        nodes: vec![vec![1], vec![2], vec![]],
        classes: vec![vec![0, 1], vec![], vec![2]],
        score_fn: Size,
    };
    let config = MctsConfig {
        playouts_per_round: 8,
        terms_to_sample: 4,
    };
    for seed in 0..30u64 {
        let tree = SearchTree::<Score>::new(0);
        let mut search = tree.start_round(StdRng::seed_from_u64(seed), 4, Score::default_exploration());
        let assign = search.assign(&config, &egraph).expect("node 1 leads to an extraction");
        assert_eq!(entries(&assign), vec![(2, 2), (0, 1)]);
    }
}

#[test]
fn unavoidable_empty_class_gives_none() {
    let egraph = SimpleEgraph {
        nodes: vec![vec![1], vec![1, 2], vec![]],
        classes: vec![vec![0, 1], vec![], vec![2]],
        score_fn: Size,
    };
    let config = MctsConfig {
        playouts_per_round: 8,
        terms_to_sample: 4,
    };
    assert!(mcts_extract(&egraph, 0, config).is_none());
}

#[test]
fn single_node_chain_gives_the_unique_assignment() {
    let egraph = SimpleEgraph {
        nodes: vec![vec![1], vec![2], vec![3], vec![]],
        classes: vec![vec![0], vec![1], vec![2], vec![3]],
        score_fn: Size,
    };
    for (playouts_per_round, terms_to_sample) in [(2, 1), (3, 2), (4, 4), (16, 1)] {
        let config = MctsConfig {
            playouts_per_round,
            terms_to_sample,
        };
        let assign = mcts_extract(&egraph, 0, config).expect("the chain has one extraction");
        assert_eq!(entries(&assign), vec![(3, 3), (2, 2), (1, 1), (0, 0)]);
        assert!(is_extraction(&assign, &egraph, 0));
    }
}

#[test]
fn search_on_safe_ground_always_succeeds() {
    // Every class has a member, and the child classes of every member have a
    // higher number than its class: whatever is chosen, nothing can go wrong.
    let egraph = SimpleEgraph {
        nodes: vec![vec![1, 2], vec![2], vec![2], vec![], vec![3], vec![], vec![]],
        classes: vec![vec![0, 1], vec![2, 3], vec![4, 5], vec![6]],
        score_fn: Size,
    };
    for playouts_per_round in [2, 3, 7] {
        let config = MctsConfig {
            playouts_per_round,
            terms_to_sample: 2,
        };
        for seed in 0..100u64 {
            let tree = SearchTree::<Score>::new(0);
            let mut search =
                tree.start_round(StdRng::seed_from_u64(seed), 2, Score::default_exploration());
            let assign = search
                .assign(&config, &egraph)
                .expect("no choice can go wrong");
            assert!(is_extraction(&assign, &egraph, 0));
        }
        let assign = mcts_extract(&egraph, 0, config).expect("no choice can go wrong");
        assert!(is_extraction(&assign, &egraph, 0));
    }
}

#[test]
fn rollout_on_safe_ground_never_fails() {
    // After node 1 for class 0, each class left has one member and none
    // leads into a cycle: whatever is drawn, the rollout ends complete.
    let egraph = high_util_graph();
    for seed in 0..50u64 {
        let mut state = ExtractionState::new(0);
        state.start_next_assign().unwrap().assign(1, &egraph);
        let mut rng = StdRng::seed_from_u64(seed);
        assert_eq!(
            random_cost_estimate(&egraph, &mut state, &mut rng),
            Some(Score(NotNan::new(1.0).unwrap()))
        );
        assert!(state.complete_assignment().is_none());
        assert_eq!(*state.start_next_assign().unwrap().class(), 2);
    }
}

#[test]
fn result_holds_no_class_that_is_not_needed() {
    // Node 0 of class 0 needs class 1, node 1 does not; whichever is chosen,
    // class 1 has an entry only if node 0 is.
    let egraph = high_util_graph();
    let config = MctsConfig {
        playouts_per_round: 3,
        terms_to_sample: 1,
    };
    for seed in 0..50u64 {
        let tree = SearchTree::<Score>::new(0);
        let mut search = tree.start_round(StdRng::seed_from_u64(seed), 1, Score::default_exploration());
        let assign = search.assign(&config, &egraph).expect("no choice can go wrong");
        assert!(is_extraction(&assign, &egraph, 0));
        assert_eq!(assign.contains_key(&1), assign[&0] == 0);
    }
}

#[test]
fn one_playout_per_round_never_grows_the_tree() {
    // The only playout of the first round stops at the root, which was never
    // visited: the root has no child when the first class is to be committed.
    let egraph = SimpleEgraph {
        nodes: vec![vec![1], vec![]],
        classes: vec![vec![0], vec![1]],
        score_fn: Size,
    };
    let config = MctsConfig {
        playouts_per_round: 1,
        terms_to_sample: 3,
    };
    assert!(mcts_extract(&egraph, 0, config).is_none());
}

#[test]
fn no_playouts_find_nothing_below_the_root() {
    let egraph = SimpleEgraph {
        nodes: vec![vec![]],
        classes: vec![vec![0]],
        score_fn: Size,
    };
    let config = MctsConfig {
        playouts_per_round: 0,
        terms_to_sample: 1,
    };
    assert!(mcts_extract(&egraph, 0, config).is_none());
}

#[test]
fn result_is_closed_and_acyclic() {
    // Every class has a node that leads into a cycle and one that does not.
    let egraph = SimpleEgraph {
        nodes: vec![
            vec![1, 2],
            vec![0],
            vec![2, 0],
            vec![3],
            vec![3, 3],
            vec![1],
            vec![],
            vec![3, 2],
        ],
        classes: vec![vec![0, 1], vec![2, 3], vec![4, 5], vec![6, 7]],
        score_fn: Size,
    };
    let config = MctsConfig {
        playouts_per_round: 12,
        terms_to_sample: 4,
    };
    let mut found = 0;
    for seed in 0..40u64 {
        let tree = SearchTree::<Score>::new(0);
        let mut search = tree.start_round(StdRng::seed_from_u64(seed), 4, Score::default_exploration());
        if let Some(assign) = search.assign(&config, &egraph) {
            found += 1;
            assert!(is_extraction(&assign, &egraph, 0));
            assert!(assign.len() <= 4);
        }
    }
    assert!(found > 0);
}

#[test]
fn failed_rollout_leaves_the_state_as_it_was() {
    // Class 1 is empty, so every rollout from the root fails.
    let egraph = SimpleEgraph {
        nodes: vec![vec![1, 2], vec![]],
        classes: vec![vec![0], vec![], vec![1]],
        score_fn: Size,
    };
    let mut state = ExtractionState::new(0);
    state.start_next_assign().unwrap().assign(0, &egraph);
    state.push_snapshot();
    let mut rng = StdRng::seed_from_u64(11);
    assert_eq!(random_cost_estimate(&egraph, &mut state, &mut rng), None);
    assert!(state.complete_assignment().is_none());
    assert_eq!(*state.start_next_assign().unwrap().class(), 1);
    // The classes still to visit are 1 and 2, in that order, as before.
    state.start_next_assign().unwrap().assign(9, &egraph);
    assert_eq!(*state.start_next_assign().unwrap().class(), 2);
    state.start_next_assign().unwrap().assign(1, &egraph);
    assert!(state.start_next_assign().is_none());
    // Node 9 has no children, so everything is committed: class 1, class 2,
    // and then class 0, which waited for both.
    let done = state.complete_assignment().expect("all classes are committed");
    assert_eq!(entries(done), vec![(1, 9), (2, 1), (0, 0)]);
    state.reset(&egraph);
    assert!(state.complete_assignment().is_none());
    assert_eq!(*state.start_next_assign().unwrap().class(), 1);
}

#[test]
fn rollout_scores_a_complete_state() {
    let egraph = SimpleEgraph {
        nodes: vec![vec![1], vec![]],
        classes: vec![vec![0], vec![1]],
        score_fn: Size,
    };
    let mut state = ExtractionState::new(0);
    let mut rng = StdRng::seed_from_u64(5);
    // One member per class: the rollout is forced and ends with two entries.
    assert_eq!(
        random_cost_estimate(&egraph, &mut state, &mut rng),
        Some(Score(cast_util(2)))
    );
    assert!(state.complete_assignment().is_none());
    state.start_next_assign().unwrap().assign(0, &egraph);
    state.start_next_assign().unwrap().assign(1, &egraph);
    assert_eq!(
        random_cost_estimate(&egraph, &mut state, &mut rng),
        Some(Score(cast_util(2)))
    );
    assert_eq!(egraph.assignment_utility(state.complete_assignment().unwrap()), Score(cast_util(2)));
}

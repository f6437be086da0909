use mcts_extract::search_tree::{select_best, TreeNodeId};

#[test]
fn tree_node_id_is_its_index() {
    assert_eq!(TreeNodeId(0).index(), 0);
    assert_eq!(TreeNodeId(41).index(), 41);
    assert_eq!(TreeNodeId(u32::MAX).index(), u32::MAX as usize);
}

#[test]
fn select_best_of_nothing_is_none() {
    assert_eq!(select_best(&vec![]), None);
}

#[test]
fn select_best_takes_the_highest_rank() {
    assert_eq!(select_best(&vec![7]), Some(0));
    assert_eq!(select_best(&vec![1, 9, 3]), Some(1));
    assert_eq!(select_best(&vec![0, 0, u32::MAX]), Some(2));
}

#[test]
fn select_best_takes_the_last_of_equals() {
    assert_eq!(select_best(&vec![5, 5, 5]), Some(2));
    assert_eq!(select_best(&vec![5, 9, 2, 9, 1]), Some(3));
}

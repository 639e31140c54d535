use tictactoe::board::{Board, FieldData};
use tictactoe::tree::{Node, Tree};

const E: FieldData = FieldData::Empty;

fn blank() -> Board {
    [[E; 3]; 3]
}

/// Root 0 with children 1 and 2; node 1 has the child 3, node 3 the child 4.
fn small_tree() -> Tree {
    let mut tree = Tree::initialize(Node::new(None, blank(), 0, None));
    tree.insert_new_node(Node::new(Some(0), blank(), 1, Some(4)));
    tree.insert_new_node(Node::new(Some(0), blank(), 2, Some(5)));
    tree.insert_new_node(Node::new(Some(1), blank(), 3, Some(6)));
    tree.insert_new_node(Node::new(Some(3), blank(), 4, Some(7)));
    tree
}

fn stats(tree: &Tree) -> Vec<(i32, i32)> {
    tree.nodes.iter().map(|n| (n.visits, n.value)).collect()
}

#[test]
fn new_node_has_no_statistics() {
    let node = Node::new(Some(3), blank(), 7, Some(2));
    assert_eq!(node.parent, Some(3));
    assert!(node.children.is_empty());
    assert_eq!(node.value, 0);
    assert_eq!(node.visits, 0);
    assert_eq!(node.state, blank());
    assert_eq!(node.action, Some(2));
    assert_eq!(node.id, 7);
}

#[test]
fn initialized_tree_holds_the_root_alone() {
    let tree = Tree::initialize(Node::new(None, blank(), 0, None));
    assert_eq!(tree.root, 0);
    assert_eq!(tree.nodes.len(), 1);
    assert_eq!(tree.nodes[0].parent, None);
    assert_eq!(tree.nodes[0].action, None);
}

#[test]
fn inserted_node_is_listed_by_its_parent() {
    let tree = small_tree();
    assert_eq!(tree.nodes.len(), 5);
    assert_eq!(tree.nodes[0].children, vec![1, 2]);
    assert_eq!(tree.nodes[1].children, vec![3]);
    assert_eq!(tree.nodes[2].children, Vec::<usize>::new());
    assert_eq!(tree.nodes[3].children, vec![4]);
    assert_eq!(tree.nodes[3].parent, Some(1));
    assert_eq!(tree.nodes[4].parent, Some(3));
    for (i, node) in tree.nodes.iter().enumerate() {
        assert_eq!(node.id, i);
        if let Some(p) = node.parent {
            assert!(p < i);
        }
    }
}

#[test]
fn back_propagate_credits_the_path_to_the_root() {
    let mut tree = small_tree();
    tree.back_propagate(4, -2);
    assert_eq!(stats(&tree), vec![(1, -2), (1, -2), (0, 0), (1, -2), (1, -2)]);
}

#[test]
fn back_propagate_adds_one_visit_to_the_root() {
    let mut tree = small_tree();
    for (round, start) in [4usize, 2, 3, 1, 0, 2].iter().enumerate() {
        let before = tree.nodes[0].visits;
        tree.back_propagate(*start, 1);
        assert_eq!(tree.nodes[0].visits, before + 1);
        assert_eq!(tree.nodes[0].visits, round as i32 + 1);
    }
    assert_eq!(tree.nodes[0].value, 6);
}

#[test]
fn back_propagate_leaves_other_nodes_alone() {
    let mut tree = small_tree();
    tree.back_propagate(2, 1);
    assert_eq!(stats(&tree), vec![(1, 1), (0, 0), (1, 1), (0, 0), (0, 0)]);
    tree.back_propagate(3, -2);
    assert_eq!(stats(&tree), vec![(2, -1), (1, -2), (1, 1), (1, -2), (0, 0)]);
    tree.back_propagate(0, 0);
    assert_eq!(stats(&tree), vec![(3, -1), (1, -2), (1, 1), (1, -2), (0, 0)]);
}

#[test]
fn back_propagate_keeps_the_shape() {
    let mut tree = small_tree();
    tree.back_propagate(4, 1);
    assert_eq!(tree.nodes[0].children, vec![1, 2]);
    assert_eq!(tree.nodes[1].children, vec![3]);
    assert_eq!(tree.nodes[4].parent, Some(3));
    assert_eq!(tree.nodes[4].action, Some(7));
    assert_eq!(tree.nodes[4].state, blank());
}

#[test]
fn back_propagate_beyond_the_arena_does_nothing() {
    let mut tree = small_tree();
    tree.back_propagate(5, 1);
    tree.back_propagate(usize::MAX, 1);
    assert_eq!(stats(&tree), vec![(0, 0); 5]);
}

#[test]
fn best_action_is_that_of_the_greatest_value() {
    let mut tree = small_tree();
    tree.back_propagate(1, -2);
    tree.back_propagate(2, 1);
    assert_eq!(tree.get_best_action(0), 5);
    tree.back_propagate(1, 1);
    tree.back_propagate(1, 1);
    tree.back_propagate(1, 1);
    tree.back_propagate(1, 1);
    assert_eq!(tree.nodes[1].value, 2);
    assert_eq!(tree.get_best_action(0), 4);
}

#[test]
fn best_action_goes_by_the_sum_not_the_average() {
    let mut tree = small_tree();
    // Node 1: three visits, value 2. Node 2: one visit, value 1.
    tree.back_propagate(1, 1);
    tree.back_propagate(1, 1);
    tree.back_propagate(1, 0);
    tree.back_propagate(2, 1);
    assert_eq!(tree.get_best_action(0), 4);
}

#[test]
fn first_child_wins_a_tie() {
    let tree = small_tree();
    assert_eq!(tree.get_best_action(0), 4);
    let mut tree = small_tree();
    tree.back_propagate(1, -2);
    tree.back_propagate(2, -2);
    assert_eq!(tree.get_best_action(0), 4);
}

#[test]
fn best_action_among_negative_values() {
    let mut tree = small_tree();
    tree.back_propagate(1, -2);
    tree.back_propagate(1, -2);
    tree.back_propagate(2, -2);
    assert_eq!(tree.get_best_action(0), 5);
}

#[test]
fn best_action_of_an_inner_node() {
    let tree = small_tree();
    assert_eq!(tree.get_best_action(1), 6);
    assert_eq!(tree.get_best_action(3), 7);
}

#[test]
fn best_action_is_zero_where_the_child_records_none() {
    let mut tree = Tree::initialize(Node::new(None, blank(), 0, None));
    tree.insert_new_node(Node::new(Some(0), blank(), 1, None));
    assert_eq!(tree.get_best_action(0), 0);
}

#[test]
fn best_action_with_the_least_value_there_is() {
    let mut tree = Tree::initialize(Node::new(None, blank(), 0, None));
    tree.insert_new_node(Node::new(Some(0), blank(), 1, Some(3)));
    tree.insert_new_node(Node::new(Some(0), blank(), 2, Some(8)));
    tree.nodes[1].value = i32::MIN;
    tree.nodes[2].value = i32::MIN;
    assert_eq!(tree.get_best_action(0), 3);
    tree.nodes[2].value = i32::MIN + 1;
    assert_eq!(tree.get_best_action(0), 8);
}

use tictactoe::board::{check_for_winners, find_empty_fields, Board, FieldData};
use tictactoe::mcts::{
    _selection, best_child, calculate_ucb, check_who_plays, child_scores, generate_optimal_move,
    mcts, node_expansion, rollout, selection, Ucb, LIMIT, LIMIT_MAX,
};
use tictactoe::tree::{Node, Tree};

const X: FieldData = FieldData::X;
const O: FieldData = FieldData::O;
const E: FieldData = FieldData::Empty;

fn position(cells: [FieldData; 9]) -> Board {
    [
        [cells[0], cells[1], cells[2]],
        [cells[3], cells[4], cells[5]],
        [cells[6], cells[7], cells[8]],
    ]
}

/// UCB1 with the exploration constant 1.414, in millionths.
fn ucb1(value: i32, visits: i32, root_visits: i32) -> i64 {
    let exploitation = value as f64 / visits as f64;
    let exploration = 1.414 * ((root_visits as f64).ln() / visits as f64).sqrt();
    ((exploitation + exploration) * 1_000_000.0) as i64
}

/// The average outcome alone, in thousandths.
fn average(value: i32, visits: i32, _root_visits: i32) -> i64 {
    (value as i64 * 1000) / visits as i64
}

/// Root 0 with the children 1, 2 and 3; node 2 has the children 4 and 5.
fn two_levels() -> Tree {
    let blank = [[E; 3]; 3];
    let mut tree = Tree::initialize(Node::new(None, blank, 0, None));
    tree.insert_new_node(Node::new(Some(0), blank, 1, Some(0)));
    tree.insert_new_node(Node::new(Some(0), blank, 2, Some(1)));
    tree.insert_new_node(Node::new(Some(0), blank, 3, Some(2)));
    tree.insert_new_node(Node::new(Some(2), blank, 4, Some(3)));
    tree.insert_new_node(Node::new(Some(2), blank, 5, Some(4)));
    tree
}

#[test]
fn turn_goes_to_the_first_player_on_equal_counts() {
    let board = [[E; 3]; 3];
    assert_eq!(check_who_plays(&board, &X), X);
    assert_eq!(check_who_plays(&board, &O), O);
    let board = position([X, O, E, E, E, E, E, E, E]);
    assert_eq!(check_who_plays(&board, &X), X);
    assert_eq!(check_who_plays(&board, &O), O);
}

#[test]
fn turn_goes_to_the_player_with_fewer_marks() {
    let board = position([X, E, E, E, E, E, E, E, E]);
    assert_eq!(check_who_plays(&board, &X), O);
    assert_eq!(check_who_plays(&board, &O), O);
    let board = position([X, O, O, E, E, E, E, E, E]);
    assert_eq!(check_who_plays(&board, &X), X);
    assert_eq!(check_who_plays(&board, &O), X);
    let board = position([X, O, X, O, X, O, X, E, E]);
    assert_eq!(check_who_plays(&board, &X), O);
}

#[test]
fn greedy_move_completes_the_top_row() {
    let board = position([X, X, E, E, E, E, E, E, E]);
    for _ in 0..20 {
        assert_eq!(generate_optimal_move(&board, &X), 2);
    }
    let board = position([X, X, E, O, O, E, E, E, E]);
    assert_eq!(generate_optimal_move(&board, &X), 2);
    let board = position([X, X, E, O, E, O, E, O, E]);
    assert_eq!(generate_optimal_move(&board, &X), 2);
}

#[test]
fn greedy_move_prefers_its_own_win_to_a_block() {
    let board = position([X, X, E, O, O, E, E, E, E]);
    assert_eq!(generate_optimal_move(&board, &O), 5);
}

#[test]
fn greedy_move_blocks_the_rival() {
    let board = position([X, X, E, E, O, E, E, E, E]);
    assert_eq!(generate_optimal_move(&board, &O), 2);
    let board = position([O, E, E, E, O, E, E, E, E]);
    assert_eq!(generate_optimal_move(&board, &X), 8);
}

#[test]
fn greedy_move_takes_the_first_of_two_wins() {
    let board = position([O, O, E, O, X, X, E, X, X]);
    assert_eq!(generate_optimal_move(&board, &O), 2);
    let board = position([E, O, O, X, X, O, E, E, E]);
    assert_eq!(generate_optimal_move(&board, &O), 0);
}

#[test]
fn greedy_move_falls_back_on_a_free_cell() {
    let board = position([X, E, E, E, O, E, E, E, E]);
    let mut seen = [false; 9];
    for _ in 0..2000 {
        let cell = generate_optimal_move(&board, &X);
        assert_eq!(board[cell / 3][cell % 3], E);
        seen[cell] = true;
    }
    assert_eq!(seen, [false, true, true, true, false, true, true, true, true]);
}

#[test]
fn rollout_of_a_decided_position_is_its_worth() {
    let won_by_o = position([O, O, O, X, X, E, E, E, E]);
    let won_by_x = position([X, X, X, O, O, E, E, E, E]);
    let drawn = position([X, O, X, X, O, O, O, X, X]);
    let tree_o = Tree::initialize(Node::new(None, won_by_o, 0, None));
    let tree_x = Tree::initialize(Node::new(None, won_by_x, 0, None));
    let tree_d = Tree::initialize(Node::new(None, drawn, 0, None));
    for first in [X, O] {
        assert_eq!(rollout(0, &tree_o, &first), 1);
        assert_eq!(rollout(0, &tree_x, &first), -2);
        assert_eq!(rollout(0, &tree_d, &first), 0);
    }
}

#[test]
fn rollout_plays_the_forced_moves() {
    // O to move wins at once on cell 5.
    let board = position([X, X, E, O, O, E, X, E, E]);
    let tree = Tree::initialize(Node::new(None, board, 0, None));
    for _ in 0..20 {
        assert_eq!(rollout(0, &tree, &X), 1);
    }
    // X to move wins at once on cell 2.
    let board = position([X, X, E, O, O, E, E, E, E]);
    let tree = Tree::initialize(Node::new(None, board, 0, None));
    for _ in 0..20 {
        assert_eq!(rollout(0, &tree, &X), -2);
    }
}

#[test]
fn rollout_is_worth_a_win_a_loss_or_a_draw() {
    let tree = Tree::initialize(Node::new(None, [[E; 3]; 3], 0, None));
    for _ in 0..200 {
        for first in [X, O] {
            let worth = rollout(0, &tree, &first);
            assert!(worth == 0 || worth == 1 || worth == -2);
        }
    }
}

#[test]
fn rollout_leaves_the_tree_alone() {
    let board = position([X, E, E, E, O, E, E, E, E]);
    let tree = Tree::initialize(Node::new(None, board, 0, None));
    let _ = rollout(0, &tree, &X);
    assert_eq!(tree.nodes.len(), 1);
    assert_eq!(tree.nodes[0].state, board);
    assert_eq!(tree.nodes[0].visits, 0);
    assert_eq!(tree.nodes[0].value, 0);
}

#[test]
fn expansion_adds_a_child_for_each_free_cell() {
    let board = position([X, E, O, E, O, E, X, E, E]);
    let mut tree = Tree::initialize(Node::new(None, board, 0, None));
    let first = node_expansion(0, &mut tree, &X);
    assert_eq!(first, 1);
    assert_eq!(tree.nodes.len(), 6);
    assert_eq!(tree.nodes[0].children, vec![1, 2, 3, 4, 5]);
    let moves = [1usize, 3, 5, 7, 8];
    for (k, cell) in moves.iter().enumerate() {
        let child = &tree.nodes[k + 1];
        assert_eq!(child.parent, Some(0));
        assert_eq!(child.action, Some(*cell));
        assert_eq!(child.id, k + 1);
        assert_eq!(child.visits, 0);
        assert_eq!(child.value, 0);
        assert!(child.children.is_empty());
        for i in 0..9 {
            let expected = if i == *cell { X } else { board[i / 3][i % 3] };
            assert_eq!(child.state[i / 3][i % 3], expected);
        }
    }
    assert_eq!(tree.nodes[0].state, board);
    let mut tree = Tree::initialize(Node::new(None, board, 0, None));
    node_expansion(0, &mut tree, &O);
    assert_eq!(tree.nodes[1].state[0][1], O);
}

#[test]
fn expansion_places_the_mark_of_the_mover() {
    let mut tree = Tree::initialize(Node::new(None, [[E; 3]; 3], 0, None));
    node_expansion(0, &mut tree, &O);
    assert_eq!(tree.nodes.len(), 10);
    assert_eq!(tree.nodes[5].state[1][1], O);
    let second = node_expansion(5, &mut tree, &O);
    assert_eq!(second, 10);
    assert_eq!(tree.nodes.len(), 18);
    assert_eq!(tree.nodes[5].children, vec![10, 11, 12, 13, 14, 15, 16, 17]);
    assert_eq!(tree.nodes[10].action, Some(0));
    assert_eq!(tree.nodes[10].state[0][0], X);
    assert_eq!(tree.nodes[10].state[1][1], O);
    assert_eq!(tree.nodes[14].action, Some(5));
    assert_eq!(tree.nodes[14].parent, Some(5));
}

#[test]
fn expansion_of_a_full_board_returns_the_node() {
    let full = position([X, O, X, X, O, O, O, X, X]);
    let mut tree = Tree::initialize(Node::new(None, full, 0, None));
    assert_eq!(node_expansion(0, &mut tree, &X), 0);
    assert_eq!(tree.nodes.len(), 1);
    assert!(tree.nodes[0].children.is_empty());
}

#[test]
fn infinite_score_exceeds_every_finite_one() {
    assert!(Ucb::Infinite.exceeds(&Ucb::Finite(i64::MAX)));
    assert!(!Ucb::Finite(i64::MAX).exceeds(&Ucb::Infinite));
    assert!(!Ucb::Infinite.exceeds(&Ucb::Infinite));
    assert!(Ucb::Finite(3).exceeds(&Ucb::Finite(2)));
    assert!(!Ucb::Finite(2).exceeds(&Ucb::Finite(2)));
    assert!(!Ucb::Finite(-5).exceeds(&Ucb::Finite(2)));
}

#[test]
fn best_child_is_the_first_greatest_score() {
    assert_eq!(best_child(&vec![Ucb::Finite(4)]), 0);
    assert_eq!(best_child(&vec![Ucb::Finite(1), Ucb::Finite(7), Ucb::Finite(3)]), 1);
    assert_eq!(best_child(&vec![Ucb::Finite(7), Ucb::Finite(7), Ucb::Finite(3)]), 0);
    assert_eq!(best_child(&vec![Ucb::Finite(-9), Ucb::Finite(-7), Ucb::Finite(-7)]), 1);
    assert_eq!(best_child(&vec![Ucb::Finite(i64::MIN), Ucb::Finite(i64::MIN)]), 0);
}

#[test]
fn unvisited_child_goes_before_any_visited_one() {
    let scores = vec![Ucb::Finite(i64::MAX), Ucb::Infinite, Ucb::Finite(5), Ucb::Infinite];
    assert_eq!(best_child(&scores), 1);
    let scores = vec![Ucb::Infinite, Ucb::Finite(i64::MAX)];
    assert_eq!(best_child(&scores), 0);
    let scores = vec![Ucb::Finite(i64::MAX), Ucb::Finite(i64::MAX), Ucb::Infinite];
    assert_eq!(best_child(&scores), 2);
}

#[test]
fn score_of_a_node_without_visits_is_infinite() {
    let tree = two_levels();
    assert_eq!(calculate_ucb(1, &tree, &ucb1), Ucb::Infinite);
    assert_eq!(calculate_ucb(0, &tree, &average), Ucb::Infinite);
}

#[test]
fn score_of_a_visited_node_comes_from_the_formula() {
    let mut tree = two_levels();
    tree.back_propagate(1, 1);
    tree.back_propagate(1, 1);
    tree.back_propagate(3, -2);
    tree.back_propagate(3, 0);
    // Root: four visits. Node 1: two visits, value 2. Node 3: two visits, value -2.
    assert_eq!(calculate_ucb(1, &tree, &average), Ucb::Finite(1000));
    assert_eq!(calculate_ucb(3, &tree, &average), Ucb::Finite(-1000));
    let told = |value: i32, visits: i32, root_visits: i32| -> i64 {
        value as i64 * 10_000 + visits as i64 * 100 + root_visits as i64
    };
    assert_eq!(calculate_ucb(1, &tree, &told), Ucb::Finite(20_204));
    assert_eq!(calculate_ucb(3, &tree, &told), Ucb::Finite(-19_796));
    // 2 / 2 + 1.414 * sqrt(ln 4 / 2) = 2.177232...
    assert_eq!(calculate_ucb(1, &tree, &ucb1), Ucb::Finite(2_177_232));
    assert_eq!(
        child_scores(0, &tree, &average),
        vec![Ucb::Finite(1000), Ucb::Infinite, Ucb::Finite(-1000)]
    );
}

#[test]
fn selection_of_a_lone_root_is_the_root() {
    let tree = Tree::initialize(Node::new(None, [[E; 3]; 3], 0, None));
    assert_eq!(selection(&tree, &ucb1), 0);
    assert_eq!(_selection(0, &tree, &ucb1), 0);
}

#[test]
fn selection_takes_the_first_unvisited_child() {
    let mut tree = two_levels();
    assert_eq!(selection(&tree, &ucb1), 1);
    tree.back_propagate(1, 1);
    // Node 1 is visited and has won; nodes 2 and 3 are not visited.
    let flattering = |_: i32, _: i32, _: i32| -> i64 { i64::MAX };
    assert_eq!(selection(&tree, &flattering), 4);
    assert_eq!(selection(&tree, &ucb1), 4);
    // Below node 2, node 4 is the first unvisited child.
    assert_eq!(_selection(2, &tree, &ucb1), 4);
    tree.back_propagate(4, 0);
    assert_eq!(selection(&tree, &flattering), 3);
    assert_eq!(_selection(2, &tree, &flattering), 5);
}

#[test]
fn selection_follows_the_greatest_score() {
    let mut tree = two_levels();
    tree.back_propagate(1, -2);
    tree.back_propagate(4, 1);
    tree.back_propagate(5, 0);
    tree.back_propagate(3, 0);
    // Averages: node 1 -2, node 2 0.5, node 3 0; below node 2: node 4 1, node 5 0.
    assert_eq!(selection(&tree, &average), 4);
    let reversed = |value: i32, visits: i32, root: i32| -> i64 { -average(value, visits, root) };
    assert_eq!(selection(&tree, &reversed), 1);
    let level = |_: i32, _: i32, _: i32| -> i64 { 0 };
    assert_eq!(selection(&tree, &level), 1);
    assert_eq!(_selection(2, &tree, &level), 4);
    assert_eq!(_selection(2, &tree, &reversed), 5);
    assert_eq!(_selection(3, &tree, &average), 3);
}

#[test]
fn search_returns_a_free_cell() {
    let boards = [
        [[E; 3]; 3],
        position([X, E, E, E, E, E, E, E, E]),
        position([X, E, O, E, O, E, X, E, E]),
        position([X, O, X, X, O, O, O, X, E]),
    ];
    for board in boards {
        for limit in [1, 2, 10, 300] {
            for first in [X, O] {
                let mut searched = board;
                let cell = mcts(&mut searched, &first, limit, ucb1);
                assert!(cell < 9);
                assert_eq!(board[cell / 3][cell % 3], E);
                assert_eq!(searched, board);
            }
        }
    }
}

#[test]
fn search_takes_the_last_free_cell() {
    let mut board = position([X, O, X, X, O, O, O, X, E]);
    assert_eq!(mcts(&mut board, &X, 50, ucb1), 8);
    let mut board = position([X, O, X, E, O, O, O, X, X]);
    assert_eq!(mcts(&mut board, &O, 50, average), 3);
}

#[test]
fn search_with_a_budget_of_one_takes_the_best_first_child() {
    // One round expands the root and plays out its first child. The first
    // child is returned unless its playout was lost, in which case the
    // second child, still at zero, has the greater sum.
    let free = position([X, E, E, E, O, E, E, E, E]);
    for _ in 0..50 {
        let mut board = free;
        let cell = mcts(&mut board, &X, 1, ucb1);
        assert!(cell == 1 || cell == 2);
    }
}

#[test]
fn search_finds_the_winning_move() {
    // O to move: cell 5 wins at once, and every other move loses to X on cell 2.
    let start = position([X, X, E, O, O, E, X, E, E]);
    let mut board = start;
    let cell = mcts(&mut board, &X, 2000, ucb1);
    assert_eq!(cell, 5);
    assert_eq!(check_for_winners(&board), E);
    assert_eq!(find_empty_fields(&board), vec![2, 5, 7, 8]);
}

#[test]
fn search_budgets() {
    assert_eq!(LIMIT, 100_000);
    assert_eq!(LIMIT_MAX, 1_073_741_823);
}

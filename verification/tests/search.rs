use mcts_zero::VALUE_SCALE;
use mcts_zero::board::Board;
use mcts_zero::games::nim::NimBoard;
use mcts_zero::games::nim::NIM_TAKE_ONE;
use mcts_zero::tree::Node;
use mcts_zero::tree::Tree;
use mcts_zero::zero::MCTSZeroBot;
use mcts_zero::zero::UniformEvaluator;
use mcts_zero::zero::mcts_zero_build_tree;
use mcts_zero::zero::mcts_zero_build_tree_batched;

const C_PUCT: i64 = 92406; // 1.41 in fixed point

/// The quiescent-tree invariants the contracts promise: the root holds
/// exactly `iterations` visits, every expanded node's visits exceed its
/// children's combined visits by one, every summed value is bounded by
/// the visit count, and no virtual loss is left anywhere.
fn check_tree_integrity(tree: &Tree<NimBoard>, iterations: u64) {
    assert!(tree.nodes.len() >= 1);
    assert_eq!(tree.nodes[0].visits, iterations);
    for i in 0..tree.nodes.len() {
        let n: &Node<NimBoard> = &tree.nodes[i];
        assert_eq!(n.virtual_loss, 0);
        let bound = (n.visits as i128) * (VALUE_SCALE as i128);
        assert!(-bound <= n.total_value && n.total_value <= bound);
        assert!(n.visits <= tree.nodes[0].visits);
        if n.children_start != 0 {
            let mut sum: u64 = 0;
            for k in 0..n.children_length {
                sum += tree.nodes[n.children_start + k].visits;
            }
            assert_eq!(n.visits, 1 + sum);
        }
    }
}

#[test]
fn single_move_scenario() {
    // a one-token heap has a single legal move; after ten iterations the
    // root holds ten visits and its only child the other nine
    let board = NimBoard::new(1);
    let mut network = UniformEvaluator;
    let tree = mcts_zero_build_tree(&board, 10, VALUE_SCALE as i64, &mut network);
    check_tree_integrity(&tree, 10);
    assert_eq!(tree.nodes[0].children_length, 1);
    let child = &tree.nodes[tree.nodes[0].children_start];
    assert_eq!(child.visits, 9);
    assert_eq!(tree.best_move(), NIM_TAKE_ONE);
}

#[test]
fn losing_root_signs() {
    // taking the last token loses, so the single child of a one-token
    // heap is a win for the opponent: each walk backs up -1 at the child
    // (the mover's view) and +1 at the root
    let board = NimBoard::new(1);
    let mut network = UniformEvaluator;
    let tree = mcts_zero_build_tree(&board, 100, C_PUCT, &mut network);
    check_tree_integrity(&tree, 100);
    let child = &tree.nodes[tree.nodes[0].children_start];
    assert_eq!(child.visits, 99);
    assert_eq!(child.total_value, -99 * (VALUE_SCALE as i128));
    assert_eq!(tree.nodes[0].total_value, 99 * (VALUE_SCALE as i128));
    // the position is lost for the side to move at the root
    assert!(child.evaluation.is_none());
    // stored values are from the perspective of the player choosing at
    // the parent: the root's mover sees -1 at its only child
    assert_eq!(child.value(), -(VALUE_SCALE as i128));
    assert_eq!(tree.nodes[0].value(), (99 * VALUE_SCALE as i128) / 100);
}

#[test]
fn single_iteration_expands_root_only() {
    // one iteration expands the root, no child is visited, and the best
    // move falls back to the first child
    let board = NimBoard::new(3);
    let mut network = UniformEvaluator;
    let tree = mcts_zero_build_tree(&board, 1, C_PUCT, &mut network);
    check_tree_integrity(&tree, 1);
    assert!(tree.nodes[0].children_start != 0);
    assert_eq!(tree.nodes[0].children_length, 2);
    for k in 0..tree.nodes[0].children_length {
        assert_eq!(tree.nodes[tree.nodes[0].children_start + k].visits, 0);
    }
    assert_eq!(tree.best_move(), NIM_TAKE_ONE);
    assert_eq!(tree.nodes[0].evaluation, Some(0));
}

#[test]
fn batched_size_one_matches_unbatched() {
    // with a batch of one the batched driver is observationally equal to
    // the unbatched baseline, node for node
    let board = NimBoard::new(6);
    let mut network = UniformEvaluator;
    let plain = mcts_zero_build_tree(&board, 60, C_PUCT, &mut network);
    let batched = mcts_zero_build_tree_batched(&board, 60, 1, C_PUCT, &mut network);
    assert_eq!(plain.nodes.len(), batched.nodes.len());
    for i in 0..plain.nodes.len() {
        assert_eq!(plain.nodes[i].mv, batched.nodes[i].mv);
        assert_eq!(plain.nodes[i].visits, batched.nodes[i].visits);
        assert_eq!(plain.nodes[i].total_value, batched.nodes[i].total_value);
        assert_eq!(plain.nodes[i].policy, batched.nodes[i].policy);
        assert_eq!(plain.nodes[i].children_start, batched.nodes[i].children_start);
        assert_eq!(plain.nodes[i].children_length, batched.nodes[i].children_length);
    }
    assert_eq!(plain.best_move(), batched.best_move());
}

#[test]
fn batched_integrity_across_batch_sizes() {
    // whatever the batch size, the driver honours the iteration count
    // exactly and leaves a coherent, virtual-loss-free tree
    let board = NimBoard::new(8);
    let mut network = UniformEvaluator;
    for batch_size in [1usize, 2, 4, 8, 32] {
        let tree = mcts_zero_build_tree_batched(&board, 100, batch_size, C_PUCT, &mut network);
        check_tree_integrity(&tree, 100);
    }
}

#[test]
fn best_move_is_stable() {
    // the search takes no randomness: rebuilding the tree gives the same
    // arena and the same move
    let board = NimBoard::new(7);
    let mut network = UniformEvaluator;
    let a = mcts_zero_build_tree_batched(&board, 200, 4, C_PUCT, &mut network);
    let b = mcts_zero_build_tree_batched(&board, 200, 4, C_PUCT, &mut network);
    assert_eq!(a.nodes.len(), b.nodes.len());
    for i in 0..a.nodes.len() {
        assert_eq!(a.nodes[i].visits, b.nodes[i].visits);
        assert_eq!(a.nodes[i].total_value, b.nodes[i].total_value);
    }
    assert_eq!(a.best_move(), b.best_move());
}

#[test]
fn policy_target_counts_every_walk_but_one() {
    // the summed policy-target visits equal the root visits minus the
    // expansion walk, so normalising by the total gives a distribution
    // summing to exactly one
    let board = NimBoard::new(5);
    let mut network = UniformEvaluator;
    let tree = mcts_zero_build_tree(&board, 100, C_PUCT, &mut network);
    let target = tree.policy_target();
    assert_eq!(target.len(), 2);
    let total: u64 = target.iter().map(|p| p.1).sum();
    assert_eq!(total, 99);
    assert_eq!(target[0].0, NIM_TAKE_ONE);
}

#[test]
fn bot_plays_live_boards_only() {
    let mut bot: MCTSZeroBot<NimBoard, UniformEvaluator> =
        MCTSZeroBot::new(50, C_PUCT, UniformEvaluator);
    let done = NimBoard::new(0);
    assert!(done.is_done());
    assert_eq!(bot.play(&done), None);
    let live = NimBoard::new(4);
    let mv = bot.play(&live).expect("live board must get a move");
    assert!(live.is_available_move(mv));
}

#[test]
fn node_children_accessor() {
    let board = NimBoard::new(3);
    let mut network = UniformEvaluator;
    let tree = mcts_zero_build_tree(&board, 5, C_PUCT, &mut network);
    let root_children = tree.nodes[0].children().expect("root is expanded");
    assert_eq!(root_children.start, tree.nodes[0].children_start);
    assert_eq!(root_children.length, tree.nodes[0].children_length);
    let leafish = &tree.nodes[tree.nodes.len() - 1];
    if leafish.children_start == 0 {
        assert!(leafish.children().is_none());
    }
}

#[test]
fn uct_prefers_unvisited_high_prior() {
    let board = NimBoard::new(4);
    let mut network = UniformEvaluator;
    let tree = mcts_zero_build_tree(&board, 30, C_PUCT, &mut network);
    // every score of a coherent node is non-negative by construction
    for k in 0..tree.nodes[0].children_length {
        let child = &tree.nodes[tree.nodes[0].children_start + k];
        let score = child.uct(C_PUCT, tree.nodes[0].visits);
        assert!(score >= 0);
    }
}

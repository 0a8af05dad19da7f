use mcts_zero::board::Board;
use mcts_zero::codec::parse_simulation;
use mcts_zero::codec::serialize_simulation;
use mcts_zero::games::nim::NimBoard;
use mcts_zero::rng::SeededRng;
use mcts_zero::selector::MoveSelector;
use mcts_zero::selfplay::StartGameCounter;
use mcts_zero::selfplay::Simulation;
use mcts_zero::selfplay::play_game;
use mcts_zero::zero::Evaluation;
use mcts_zero::zero::Evaluator;
use mcts_zero::zero::UniformEvaluator;
use mcts_zero::zero::mcts_zero_build_tree_batched;

const C_PUCT: i64 = 92406; // 1.41 in fixed point

/// A uniform evaluator that counts its calls and the boards it was handed.
struct CountingEvaluator {
    inner: UniformEvaluator,
    calls: u64,
    boards: u64,
}

impl Evaluator<NimBoard> for CountingEvaluator {
    fn evaluate_batch(&mut self, boards: &Vec<NimBoard>) -> Vec<Evaluation> {
        self.calls += 1;
        self.boards += boards.len() as u64;
        self.inner.evaluate_batch(boards)
    }
}

#[test]
fn four_games_yield_four_records() {
    // the per-game loop run four times produces four parseable records
    // whose position counts add up
    let mut counter = StartGameCounter::new(4);
    let selector = MoveSelector { inf_temp_move_count: 2 };
    let mut network = UniformEvaluator;
    let mut rng = SeededRng::new(2024);
    let mut records: Vec<Vec<u64>> = Vec::new();
    let mut total_positions = 0usize;
    loop {
        let granted = counter.request_up_to(1);
        if granted == 0 {
            break;
        }
        let start = NimBoard::new(10);
        let sim = play_game(&start, 12, 4, C_PUCT, &selector, &mut network, &mut rng);
        total_positions += sim.positions.len();
        records.push(serialize_simulation(&sim));
    }
    assert_eq!(records.len(), 4);
    let mut parsed_positions = 0usize;
    for words in &records {
        let sim: Simulation<NimBoard> = parse_simulation(words).expect("record parses");
        parsed_positions += sim.positions.len();
    }
    assert_eq!(parsed_positions, total_positions);
    assert!(total_positions >= 4);
}

#[test]
fn batched_driver_amortises_evaluator_calls() {
    // with batches of up to eight, one hundred iterations need at most
    // one board per iteration and far fewer evaluator calls than boards
    let board = NimBoard::new(9);
    let mut network = CountingEvaluator { inner: UniformEvaluator, calls: 0, boards: 0 };
    let tree = mcts_zero_build_tree_batched(&board, 100, 8, C_PUCT, &mut network);
    assert_eq!(tree.nodes[0].visits, 100);
    // every submitted board is one expansion, and expansions never
    // outnumber the iterations
    assert!(network.boards <= 100);
    assert!(network.boards >= 1);
    // batching pays: strictly fewer calls than boards submitted
    assert!(network.calls <= network.boards);
    assert!(network.calls < 100);
}

#[test]
fn unbatched_is_one_board_per_call() {
    let board = NimBoard::new(5);
    let mut network = CountingEvaluator { inner: UniformEvaluator, calls: 0, boards: 0 };
    let tree = mcts_zero::zero::mcts_zero_build_tree(&board, 50, C_PUCT, &mut network);
    assert_eq!(tree.nodes[0].visits, 50);
    assert_eq!(network.calls, network.boards);
    assert!(network.boards <= 50);
}

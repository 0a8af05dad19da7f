use mcts_zero::board::Board;
use mcts_zero::board::Player;
use mcts_zero::bots::Bot;
use mcts_zero::bots::RandomBot;
use mcts_zero::bots::RolloutBot;
use mcts_zero::bots::SolverBot;
use mcts_zero::games::nim::NimBoard;
use mcts_zero::games::nim::NIM_TAKE_ONE;
use mcts_zero::games::nim::NIM_TAKE_TWO;
use mcts_zero::rng::SeededRng;
use mcts_zero::solver::SolverHeuristic;
use mcts_zero::solver::SOLVER_BOUND;
use mcts_zero::solver::find_forcing_winner;
use mcts_zero::solver::is_double_forced_draw;
use mcts_zero::solver::solver_value;

#[test]
fn forced_winner_on_small_heaps() {
    // one token: the mover must take it and loses
    assert_eq!(find_forcing_winner(&NimBoard::new(1), 5), Some(Player::B));
    // two tokens: take one, the opponent is forced to take the last
    assert_eq!(find_forcing_winner(&NimBoard::new(2), 5), Some(Player::A));
    // three tokens: take two and leave the forced last token
    assert_eq!(find_forcing_winner(&NimBoard::new(3), 5), Some(Player::A));
    // the horizon hides the answer
    assert_eq!(find_forcing_winner(&NimBoard::new(6), 1), None);
}

#[test]
fn solver_heuristic_values() {
    let h = SolverHeuristic;
    assert_eq!(h.bound(), SOLVER_BOUND);
    // a live board scores zero at the horizon
    assert_eq!(h.value(&NimBoard::new(4), 3), 0);
    // the empty heap is a win for its side to move, shorter is better
    let done = NimBoard { tokens: 0, next: Player::A };
    assert_eq!(h.value(&done, 2), SOLVER_BOUND - 2);
}

#[test]
fn solver_value_prefers_short_wins() {
    // from two tokens the mover wins in two plies
    let v = solver_value(&NimBoard::new(2), 5, 0);
    assert_eq!(v, SOLVER_BOUND - 2);
    // from one token the mover loses in one ply
    let v1 = solver_value(&NimBoard::new(1), 5, 0);
    assert_eq!(v1, -(SOLVER_BOUND - 1));
}

#[test]
fn nim_is_never_a_draw() {
    assert_eq!(is_double_forced_draw(&NimBoard::new(1), 4), Some(false));
    let done = NimBoard { tokens: 0, next: Player::B };
    assert_eq!(is_double_forced_draw(&done, 0), Some(false));
    // a live board with no depth is unknown
    assert_eq!(is_double_forced_draw(&NimBoard::new(2), 0), None);
}

#[test]
fn solver_bot_plays_the_winning_move() {
    let mut bot = SolverBot::new(6, SeededRng::new(1));
    let two = NimBoard::new(2);
    assert_eq!(Bot::<NimBoard>::select_move(&mut bot, &two), NIM_TAKE_ONE);
    let three = NimBoard::new(3);
    assert_eq!(Bot::<NimBoard>::select_move(&mut bot, &three), NIM_TAKE_TWO);
}

#[test]
fn random_bot_plays_legal_moves() {
    let mut bot = RandomBot::new(SeededRng::new(3));
    for tokens in 1..6u64 {
        let board = NimBoard::new(tokens);
        let mv = Bot::<NimBoard>::select_move(&mut bot, &board);
        assert!(board.is_available_move(mv));
    }
}

#[test]
fn rollout_bot_plays_legal_moves() {
    let mut bot = RolloutBot::new(8, SeededRng::new(4));
    let board = NimBoard::new(5);
    let mv = Bot::<NimBoard>::select_move(&mut bot, &board);
    assert!(board.is_available_move(mv));
}

use mcts_zero::VALUE_SCALE;
use mcts_zero::board::Board;
use mcts_zero::board::Outcome;
use mcts_zero::board::Player;
use mcts_zero::games::nim::NimBoard;
use mcts_zero::games::nim::NIM_TAKE_ONE;
use mcts_zero::games::nim::NIM_TAKE_TWO;
use mcts_zero::rng::SeededRng;
use mcts_zero::selfplay::StartGameCounter;
use mcts_zero::tree::IdxRange;
use mcts_zero::wdl::Flip;
use mcts_zero::wdl::OutcomeWDL;
use mcts_zero::wdl::POV;
use mcts_zero::wdl::WDL;

#[test]
fn player_other_and_signs() {
    assert_eq!(Player::A.other(), Player::B);
    assert_eq!(Player::B.other(), Player::A);
    assert_eq!(Player::A.index(), 0);
    assert_eq!(Player::B.index(), 1);
    assert_eq!(Player::A.sign(Player::A), 1);
    assert_eq!(Player::A.sign(Player::B), -1);
}

#[test]
fn outcome_other_sign_unwrap() {
    assert_eq!(Outcome::WonBy(Player::A).other(), Outcome::WonBy(Player::B));
    assert_eq!(Outcome::Draw.other(), Outcome::Draw);
    assert_eq!(Outcome::WonBy(Player::A).unwrap_player(), Player::A);
    assert_eq!(Outcome::WonBy(Player::A).sign(Player::A), 1);
    assert_eq!(Outcome::WonBy(Player::A).sign(Player::B), -1);
    assert_eq!(Outcome::Draw.sign(Player::A), 0);
}

#[test]
fn outcome_pov_and_flip() {
    assert_eq!(Outcome::WonBy(Player::A).pov(Player::A), OutcomeWDL::Win);
    assert_eq!(Outcome::WonBy(Player::A).pov(Player::B), OutcomeWDL::Loss);
    assert_eq!(Outcome::Draw.pov(Player::A), OutcomeWDL::Draw);
    assert_eq!(OutcomeWDL::Win.flip(), OutcomeWDL::Loss);
    assert_eq!(OutcomeWDL::Draw.flip(), OutcomeWDL::Draw);
    let w = WDL { win: 3, draw: 2, loss: 1 };
    let f = w.flip();
    assert_eq!(f.win, 1);
    assert_eq!(f.draw, 2);
    assert_eq!(f.loss, 3);
    assert_eq!(w.value(), 2);
    assert_eq!(w.sum(), 6);
    assert_eq!(OutcomeWDL::Win.sign(), 1);
    assert_eq!(OutcomeWDL::Loss.sign(), -1);
    let one = OutcomeWDL::Draw.to_wdl();
    assert_eq!((one.win, one.draw, one.loss), (0, 1, 0));
}

#[test]
fn outcome_wdl_best_minimax() {
    let all_loss = vec![Some(OutcomeWDL::Loss), Some(OutcomeWDL::Loss)];
    assert_eq!(OutcomeWDL::best(&all_loss), Some(OutcomeWDL::Loss));
    let with_win = vec![Some(OutcomeWDL::Loss), Some(OutcomeWDL::Win), None];
    assert_eq!(OutcomeWDL::best(&with_win), Some(OutcomeWDL::Win));
    let with_unknown = vec![Some(OutcomeWDL::Loss), None];
    assert_eq!(OutcomeWDL::best(&with_unknown), None);
    let with_draw = vec![Some(OutcomeWDL::Loss), Some(OutcomeWDL::Draw)];
    assert_eq!(OutcomeWDL::best(&with_draw), Some(OutcomeWDL::Draw));
    let empty: Vec<Option<OutcomeWDL>> = Vec::new();
    assert_eq!(OutcomeWDL::best(&empty), Some(OutcomeWDL::Loss));
}

#[test]
fn nim_rules() {
    let b = NimBoard::new(3);
    assert_eq!(b.next_player(), Player::A);
    assert_eq!(b.outcome(), None);
    assert!(!b.is_done());
    assert_eq!(b.available_moves(), vec![NIM_TAKE_ONE, NIM_TAKE_TWO]);
    assert!(b.is_available_move(NIM_TAKE_ONE));
    assert!(b.is_available_move(NIM_TAKE_TWO));
    assert!(!b.is_available_move(7));

    let one_left = NimBoard::new(1);
    assert_eq!(one_left.available_moves(), vec![NIM_TAKE_ONE]);
    assert!(!one_left.is_available_move(NIM_TAKE_TWO));

    // whoever takes the last token loses: the player to move at the
    // empty heap is the winner
    let after = one_left.clone_and_play(NIM_TAKE_ONE);
    assert_eq!(after.tokens, 0);
    assert!(after.is_done());
    assert_eq!(after.outcome(), Some(Outcome::WonBy(Player::B)));

    let mut game = NimBoard::new(3);
    game.play(NIM_TAKE_TWO);
    assert_eq!(game.tokens, 1);
    assert_eq!(game.next_player(), Player::B);
    game.play(NIM_TAKE_ONE);
    assert_eq!(game.outcome(), Some(Outcome::WonBy(Player::A)));
}

#[test]
fn nim_board_codec() {
    let b = NimBoard { tokens: 5, next: Player::B };
    let enc = b.encode();
    assert_eq!(enc, vec![5, 1]);
    assert_eq!(NimBoard::decode(&enc), Some(b));
    assert_eq!(NimBoard::decode(&vec![5]), None);
    assert_eq!(NimBoard::decode(&vec![5, 3]), None);
}

#[test]
fn rng_is_deterministic() {
    let mut a = SeededRng::new(1);
    let mut b = SeededRng::new(1);
    let x = a.next_u64();
    assert_eq!(x, 1082269761);
    assert_eq!(b.next_u64(), x);
    assert_ne!(a.next_u64(), x);
    // a zero seed falls back to a fixed constant
    let z = SeededRng::new(0);
    assert_ne!(z.state, 0);
}

#[test]
fn rng_next_below_bound() {
    let mut r = SeededRng::new(42);
    for _ in 0..32 {
        let v = r.next_below(7);
        assert!(v < 7);
    }
}

#[test]
fn idx_range_iter_and_get() {
    let r = IdxRange { start: 3, length: 4 };
    let it = r.iter();
    assert_eq!(it.start, 3);
    assert_eq!(it.end, 7);
    assert_eq!(r.get(0), 3);
    assert_eq!(r.get(3), 6);
    let collected: Vec<usize> = it.collect();
    assert_eq!(collected, vec![3, 4, 5, 6]);
}

#[test]
fn start_game_counter_hands_out_games() {
    let mut c = StartGameCounter::new(10);
    assert_eq!(c.request_up_to(4), 4);
    assert_eq!(c.left, 6);
    assert_eq!(c.request_up_to(5), 5);
    assert_eq!(c.request_up_to(5), 1);
    assert_eq!(c.request_up_to(5), 0);
    assert_eq!(c.left, 0);
}

#[test]
fn value_scale_is_a_power_of_two() {
    assert_eq!(VALUE_SCALE, 65536);
}

use std::cell::RefCell;
use std::rc::Rc;

use gomoku::board::{Board, Coord, MoveError};
use gomoku::game::EndGame::{Draw, Victory};
use gomoku::game::PlayerIndicator::{Player1, Player2};
use gomoku::game::{check_end, Game, PlayerIndicator, VICTORY_STREAK};
use gomoku::players::{Player, TestBot};

fn board_with(stones: &[(PlayerIndicator, Coord)]) -> Board {
    let mut board = Board::new();
    for (player, coords) in stones {
        assert_eq!(board.make_move(*player, *coords), Ok(()));
    }
    board
}

fn stones_of(player: PlayerIndicator, coords: &[Coord]) -> Vec<(PlayerIndicator, Coord)> {
    coords.iter().map(|at| (player, *at)).collect()
}

/// A full board without five in a line: along a row the stones change sides
/// every two columns, and from row to row the sides are swapped.
fn drawn_board() -> Board {
    let mut board = Board::new();
    for row in 0..15 {
        for col in 0..15 {
            let player = if (col / 2 + row) % 2 == 0 { Player1 } else { Player2 };
            assert_eq!(board.make_move(player, (row, col)), Ok(()));
        }
    }
    board
}

#[test]
fn victory_takes_five() {
    assert_eq!(VICTORY_STREAK, 5);
}

#[test]
fn empty_board_is_open() {
    assert_eq!(check_end(&Board::new()), None);
}

#[test]
fn five_in_a_row_win() {
    let board = board_with(&stones_of(Player1, &[(0, 0), (0, 1), (0, 2), (0, 3), (0, 4)]));
    assert_eq!(check_end(&board), Some(Victory(Player1)));
}

#[test]
fn six_in_a_row_win_too() {
    let board = board_with(&stones_of(Player1, &[(0, 0), (0, 1), (0, 2), (0, 3), (0, 4), (0, 5)]));
    assert_eq!(check_end(&board), Some(Victory(Player1)));
}

#[test]
fn four_in_a_row_with_open_ends_is_no_victory() {
    let board = board_with(&stones_of(Player1, &[(7, 5), (7, 6), (7, 7), (7, 8)]));
    assert_eq!(check_end(&board), None);
    let board = board_with(&stones_of(Player2, &[(5, 7), (6, 7), (7, 7), (8, 7)]));
    assert_eq!(check_end(&board), None);
    let board = board_with(&stones_of(Player2, &[(5, 5), (6, 6), (7, 7), (8, 8)]));
    assert_eq!(check_end(&board), None);
    let board = board_with(&stones_of(Player2, &[(5, 9), (6, 8), (7, 7), (8, 6)]));
    assert_eq!(check_end(&board), None);
}

#[test]
fn five_with_a_gap_is_no_victory() {
    let board = board_with(&stones_of(Player1, &[(7, 4), (7, 5), (7, 6), (7, 8), (7, 9)]));
    assert_eq!(check_end(&board), None);
}

#[test]
fn five_of_two_players_is_no_victory() {
    let mut stones = stones_of(Player1, &[(7, 4), (7, 5), (7, 7), (7, 8)]);
    stones.push((Player2, (7, 6)));
    assert_eq!(check_end(&board_with(&stones)), None);
}

#[test]
fn five_in_the_last_row_and_column() {
    let board = board_with(&stones_of(Player2, &[(14, 10), (14, 11), (14, 12), (14, 13), (14, 14)]));
    assert_eq!(check_end(&board), Some(Victory(Player2)));
    let board = board_with(&stones_of(Player2, &[(10, 14), (11, 14), (12, 14), (13, 14), (14, 14)]));
    assert_eq!(check_end(&board), Some(Victory(Player2)));
}

#[test]
fn five_on_each_diagonal() {
    let board = board_with(&stones_of(Player1, &[(10, 10), (11, 11), (12, 12), (13, 13), (14, 14)]));
    assert_eq!(check_end(&board), Some(Victory(Player1)));
    let board = board_with(&stones_of(Player1, &[(10, 0), (11, 1), (12, 2), (13, 3), (14, 4)]));
    assert_eq!(check_end(&board), Some(Victory(Player1)));
    let board = board_with(&stones_of(Player1, &[(0, 10), (1, 11), (2, 12), (3, 13), (4, 14)]));
    assert_eq!(check_end(&board), Some(Victory(Player1)));
    let board = board_with(&stones_of(Player2, &[(10, 4), (11, 3), (12, 2), (13, 1), (14, 0)]));
    assert_eq!(check_end(&board), Some(Victory(Player2)));
    let board = board_with(&stones_of(Player2, &[(0, 4), (1, 3), (2, 2), (3, 1), (4, 0)]));
    assert_eq!(check_end(&board), Some(Victory(Player2)));
    let board = board_with(&stones_of(Player2, &[(10, 14), (11, 13), (12, 12), (13, 11), (14, 10)]));
    assert_eq!(check_end(&board), Some(Victory(Player2)));
}

#[test]
fn rows_do_not_wrap() {
    let board = board_with(&stones_of(Player1, &[(0, 12), (0, 13), (0, 14), (1, 0), (1, 1)]));
    assert_eq!(check_end(&board), None);
    let board = board_with(&stones_of(Player1, &[(12, 0), (13, 0), (14, 0), (0, 1), (1, 1)]));
    assert_eq!(check_end(&board), None);
}

#[test]
fn full_board_without_five_is_a_draw() {
    let board = drawn_board();
    assert!(board.is_full());
    assert_eq!(check_end(&board), Some(Draw));
}

#[test]
fn full_board_with_five_is_a_victory() {
    let mut board = Board::new();
    for row in 0..15 {
        for col in 0..15 {
            assert_eq!(board.make_move(Player2, (row, col)), Ok(()));
        }
    }
    assert_eq!(check_end(&board), Some(Victory(Player2)));
}

#[test]
fn first_five_of_the_search_decides() {
    let mut stones = stones_of(Player2, &[(3, 0), (3, 1), (3, 2), (3, 3), (3, 4)]);
    stones.extend(stones_of(Player1, &[(9, 0), (9, 1), (9, 2), (9, 3), (9, 4)]));
    assert_eq!(check_end(&board_with(&stones)), Some(Victory(Player2)));

    let mut stones = stones_of(Player1, &[(5, 0), (6, 0), (7, 0), (8, 0), (9, 0)]);
    stones.extend(stones_of(Player2, &[(14, 5), (14, 6), (14, 7), (14, 8), (14, 9)]));
    assert_eq!(check_end(&board_with(&stones)), Some(Victory(Player2)));

    let mut stones = stones_of(Player1, &[(0, 0), (1, 1), (2, 2), (3, 3), (4, 4)]);
    stones.extend(stones_of(Player2, &[(5, 14), (6, 14), (7, 14), (8, 14), (9, 14)]));
    assert_eq!(check_end(&board_with(&stones)), Some(Victory(Player2)));

    let mut stones = stones_of(Player1, &[(0, 9), (1, 8), (2, 7), (3, 6), (4, 5)]);
    stones.extend(stones_of(Player2, &[(0, 10), (1, 11), (2, 12), (3, 13), (4, 14)]));
    assert_eq!(check_end(&board_with(&stones)), Some(Victory(Player1)));
}

#[test]
fn new_game_starts_with_player1_on_an_empty_board() {
    let game = Game::new(TestBot::new(vec![]), TestBot::new(vec![]));
    assert_eq!(game.current_turn(), Player1);
    assert!(game.moves().is_empty());
    assert_eq!(game.check_end(), None);
    assert_eq!(game.board().possible_moves().next(), Some((0, 0)));
}

#[test]
fn game_records_moves_and_takes_turns() {
    let mut game = Game::new(TestBot::new(vec![]), TestBot::new(vec![]));
    assert_eq!(game.make_move((7, 7)), Ok(None));
    assert_eq!(game.current_turn(), Player2);
    assert_eq!(game.make_move((7, 8)), Ok(None));
    assert_eq!(game.current_turn(), Player1);
    assert_eq!(game.moves(), &vec![(7, 7), (7, 8)]);
    assert_eq!(game.board().get(7, 7), Some(Player1));
    assert_eq!(game.board().get(7, 8), Some(Player2));
}

#[test]
fn refused_move_leaves_the_game_as_it_was() {
    let mut game = Game::new(TestBot::new(vec![]), TestBot::new(vec![]));
    assert_eq!(game.make_move((7, 7)), Ok(None));
    assert_eq!(game.make_move((7, 7)), Err(MoveError::OccupiedCell));
    assert_eq!(game.make_move((7, 15)), Err(MoveError::OutOfBounds));
    assert_eq!(game.make_move((15, 7)), Err(MoveError::OutOfBounds));
    assert_eq!(game.current_turn(), Player2);
    assert_eq!(game.moves(), &vec![(7, 7)]);
    assert_eq!(game.board().get(7, 7), Some(Player1));
}

#[test]
fn turn_asks_the_player_to_move() {
    let p1 = TestBot::new(vec![(1, 1), (2, 2)]);
    let p2 = TestBot::new(vec![(1, 1), (3, 3)]);
    let mut game = Game::new(p1, p2);
    assert_eq!(game.play_turn(), Ok(None));
    assert_eq!(game.play_turn(), Err(MoveError::OccupiedCell));
    assert_eq!(game.current_turn(), Player2);
    assert_eq!(game.play_turn(), Ok(None));
    assert_eq!(game.moves(), &vec![(1, 1), (3, 3)]);
}

#[test]
fn turns_stop_at_a_refused_move() {
    let p1 = TestBot::new(vec![(0, 0), (0, 1), (0, 2)]);
    let p2 = TestBot::new(vec![(1, 0), (0, 0), (1, 2)]);
    let mut game = Game::new(p1, p2);
    assert_eq!(game.play_turns(6), Err(MoveError::OccupiedCell));
    assert_eq!(game.moves(), &vec![(0, 0), (1, 0), (0, 1)]);
    assert_eq!(game.current_turn(), Player2);
}

#[test]
fn turns_stop_at_the_end_of_the_game() {
    let p1 = TestBot::new(vec![(0, 0), (0, 1), (0, 2), (0, 3), (0, 4), (0, 5)]);
    let p2 = TestBot::new(vec![(1, 0), (1, 1), (1, 2), (1, 3), (1, 4), (1, 5)]);
    let mut game = Game::new(p1, p2);
    assert_eq!(game.play_turns(12), Ok(Some(Victory(Player1))));
    assert_eq!(game.moves().len(), 9);
    assert_eq!(game.check_end(), Some(Victory(Player1)));
}

#[test]
fn turns_may_be_asked_for_beyond_the_end() {
    let p1 = TestBot::new(vec![(0, 0), (0, 1), (0, 2), (0, 3), (0, 4)]);
    let p2 = TestBot::new(vec![(0, 5), (0, 7), (0, 9), (0, 11), (0, 13)]);
    let mut game = Game::new(p1, p2);
    assert_eq!(game.play_turns(20), Ok(Some(Victory(Player1))));
    assert_eq!(game.moves().len(), 9);
}

#[test]
fn turn_in_a_game_that_is_won_is_played() {
    let p1 = TestBot::new(vec![(0, 0), (0, 1), (0, 2), (0, 3), (0, 4)]);
    let p2 = TestBot::new(vec![(1, 0), (1, 1), (1, 2), (1, 3), (1, 4)]);
    let mut game = Game::new(p1, p2);
    assert_eq!(game.play_turns(9), Ok(Some(Victory(Player1))));
    assert_eq!(game.play_turn(), Ok(Some(Victory(Player1))));
    assert_eq!(game.moves().len(), 10);
    assert_eq!(game.board().get(1, 4), Some(Player2));
}

#[test]
fn turn_on_a_full_board_is_refused() {
    let board = drawn_board();
    let mut first = Vec::new();
    let mut second = Vec::new();
    for row in 0..15 {
        for col in 0..15 {
            match board.get(row, col) {
                Some(Player1) => first.push((row, col)),
                Some(Player2) => second.push((row, col)),
                None => unreachable!(),
            }
        }
    }
    second.push((7, 7));
    let mut game = Game::new(TestBot::new(first), TestBot::new(second));
    assert_eq!(game.play_turns(225), Ok(Some(Draw)));
    assert_eq!(game.current_turn(), Player2);
    assert_eq!(game.play_turn(), Err(MoveError::OccupiedCell));
    assert_eq!(game.moves().len(), 225);
}

#[test]
fn no_turns_change_nothing() {
    let mut game = Game::new(TestBot::new(vec![(0, 0)]), TestBot::new(vec![]));
    assert_eq!(game.play_turns(0), Ok(None));
    assert!(game.moves().is_empty());
}

/// A player that takes the first empty cell in row-major order.
struct FirstFree;

impl Player for FirstFree {
    fn decide(&mut self, board: &Board, _last_move: Option<Coord>) -> Coord {
        board.possible_moves().next().unwrap()
    }
}

/// A player that asks for the same cell again and again.
struct Stubborn(Coord);

impl Player for Stubborn {
    fn decide(&mut self, _board: &Board, _last_move: Option<Coord>) -> Coord {
        self.0
    }
}

#[test]
fn game_is_played_to_its_end() {
    let mut game = Game::new(FirstFree, FirstFree);
    assert_eq!(game.play_to_end(), Ok(Victory(Player1)));
    assert_eq!(game.moves().len(), 61);
    assert_eq!(game.moves()[60], (4, 0));
    assert_eq!(game.check_end(), Some(Victory(Player1)));
}

#[test]
fn play_to_end_stops_at_a_refused_move() {
    let mut game = Game::new(FirstFree, Stubborn((20, 2)));
    assert_eq!(game.play_to_end(), Err(MoveError::OutOfBounds));
    assert_eq!(game.moves(), &vec![(0, 0)]);
    assert_eq!(game.current_turn(), Player2);

    let mut game = Game::new(Stubborn((7, 7)), Stubborn((7, 7)));
    assert_eq!(game.play_to_end(), Err(MoveError::OccupiedCell));
    assert_eq!(game.moves(), &vec![(7, 7)]);
    assert_eq!(game.current_turn(), Player2);
}

/// A player that takes the first empty cell and notes what it was told of
/// the move before.
struct Noting(Rc<RefCell<Vec<Option<Coord>>>>);

impl Player for Noting {
    fn decide(&mut self, board: &Board, last_move: Option<Coord>) -> Coord {
        self.0.borrow_mut().push(last_move);
        board.possible_moves().next().unwrap()
    }
}

#[test]
fn last_move_is_handed_to_the_player() {
    let notes = Rc::new(RefCell::new(Vec::new()));
    let mut game = Game::new(Noting(notes.clone()), Noting(notes.clone()));
    assert_eq!(game.play_turns(3), Ok(None));
    assert_eq!(*notes.borrow(), vec![None, Some((0, 0)), Some((0, 1))]);
}

#[test]
fn game_ends_in_a_draw_on_the_last_cell() {
    let board = drawn_board();
    let mut first = Vec::new();
    let mut second = Vec::new();
    for row in 0..15 {
        for col in 0..15 {
            match board.get(row, col) {
                Some(Player1) => first.push((row, col)),
                Some(Player2) => second.push((row, col)),
                None => unreachable!(),
            }
        }
    }
    assert_eq!(first.len(), 113);
    assert_eq!(second.len(), 112);
    let mut game = Game::new(TestBot::new(first), TestBot::new(second));
    assert_eq!(game.play_turns(224), Ok(None));
    assert_eq!(game.play_turns(1), Ok(Some(Draw)));
    assert!(game.board().is_full());
}

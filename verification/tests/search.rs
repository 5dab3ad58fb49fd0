use gomoku::ai::SmartBot;
use gomoku::board::{Board, Coord};
use gomoku::game::check_end;
use gomoku::game::EndGame::Victory;
use gomoku::game::PlayerIndicator;
use gomoku::game::PlayerIndicator::{Player1, Player2};
use gomoku::heuristic::{heuristic, CERTAIN_WIN};
use gomoku::players::Player;

fn other(player: PlayerIndicator) -> PlayerIndicator {
    match player {
        Player1 => Player2,
        Player2 => Player1,
    }
}

fn legal_moves(board: &Board) -> Vec<Coord> {
    let mut walk = board.possible_moves();
    let mut moves = Vec::new();
    while let Some(coords) = walk.next() {
        moves.push(coords);
    }
    moves
}

/// A full board without five in a line, but for the cells in `free`.
fn crowded_board(free: &[Coord]) -> Board {
    let mut board = Board::new();
    for row in 0..15 {
        for col in 0..15 {
            if !free.contains(&(row, col)) {
                let player = if (col / 2 + row) % 2 == 0 { Player1 } else { Player2 };
                assert_eq!(board.make_move(player, (row, col)), Ok(()));
            }
        }
    }
    board
}

/// A score that depends on every cell of the board and on the player, with
/// few values, so that many moves tie.
fn scattered(board: &Board, player: PlayerIndicator) -> isize {
    let mut sum: usize = if player == Player1 { 3 } else { 5 };
    for row in 0..15 {
        for col in 0..15 {
            let mark = match board.get(row, col) {
                None => 0,
                Some(Player1) => 1,
                Some(Player2) => 2,
            };
            sum = (sum * 31 + mark * (row * 15 + col + 7)) % 1009;
        }
    }
    (sum % 7) as isize - 3
}

fn plain_minimax(
    board: &Board,
    me: PlayerIndicator,
    depth: u32,
    maximizing: bool,
    score: &dyn Fn(&Board, PlayerIndicator) -> isize,
) -> (isize, Option<Coord>) {
    let moves = legal_moves(board);
    if depth == 0 || moves.is_empty() {
        return (score(board, me), None);
    }
    let mover = if maximizing { me } else { other(me) };
    let mut best = (if maximizing { isize::MIN } else { isize::MAX }, None);
    for coords in moves {
        let mut child = board.clone();
        assert_eq!(child.make_move(mover, coords), Ok(()));
        let (value, _) = plain_minimax(&child, me, depth - 1, !maximizing, score);
        if (maximizing && value > best.0) || (!maximizing && value < best.0) {
            best = (value, Some(coords));
        }
    }
    best
}

const FREE: [Coord; 7] = [(0, 3), (2, 9), (5, 5), (7, 7), (7, 8), (11, 2), (14, 14)];

#[test]
fn pruning_finds_what_plain_minimax_finds() {
    for me in [Player1, Player2] {
        for cells in 1..=FREE.len() {
            let board = crowded_board(&FREE[..cells]);
            for depth in 1..=3 {
                let expected = plain_minimax(&board, me, depth, true, &scattered);
                let mut bot = SmartBot::new(me, scattered, depth);
                assert_eq!(bot.minimax_aux(&board, depth, isize::MIN, isize::MAX, true), expected);
                assert_eq!(Some(bot.decide(&board, None)), expected.1);
            }
        }
    }
}

#[test]
fn pruning_finds_what_plain_minimax_finds_with_the_heuristic() {
    let free = [(3, 3), (3, 4), (3, 5), (3, 6), (3, 7), (9, 9)];
    let board = crowded_board(&free);
    for me in [Player1, Player2] {
        for depth in 1..=3 {
            let expected = plain_minimax(&board, me, depth, true, &heuristic);
            let mut bot = SmartBot::new(me, heuristic, depth);
            assert_eq!(bot.minimax_aux(&board, depth, isize::MIN, isize::MAX, true), expected);
            assert_eq!(Some(bot.decide(&board, None)), expected.1);
        }
    }
}

#[test]
fn pruning_under_a_narrow_window_keeps_the_bounds() {
    let board = crowded_board(&FREE[..5]);
    let exact = plain_minimax(&board, Player1, 3, true, &scattered).0;
    let bot = SmartBot::new(Player1, scattered, 3);
    for alpha in -4..4 {
        for beta in (alpha + 1)..5 {
            let found = bot.minimax_aux(&board, 3, alpha, beta, true);
            if alpha < exact && exact < beta {
                assert_eq!(found.0, exact);
            } else if exact <= alpha {
                assert!(found.0 <= alpha);
            } else {
                assert!(found.0 >= beta);
            }
        }
    }
}

#[test]
fn leaf_has_its_score_and_no_move() {
    let board = crowded_board(&FREE[..3]);
    let bot = SmartBot::new(Player2, scattered, 2);
    assert_eq!(bot.minimax_aux(&board, 0, isize::MIN, isize::MAX, true), (scattered(&board, Player2), None));
    let full = crowded_board(&[]);
    assert_eq!(bot.minimax_aux(&full, 2, isize::MIN, isize::MAX, true), (scattered(&full, Player2), None));
    assert_eq!(bot.minimax_aux(&full, 2, isize::MIN, isize::MAX, false), (scattered(&full, Player2), None));
}

#[test]
fn first_of_equal_moves_is_chosen() {
    let board = Board::new();
    let mut bot = SmartBot::new(Player1, |_: &Board, _: PlayerIndicator| 0, 1);
    assert_eq!(bot.decide(&board, None), (0, 0));
    let mut board = Board::new();
    assert_eq!(board.make_move(Player2, (0, 0)), Ok(()));
    assert_eq!(bot.decide(&board, Some((0, 0))), (0, 1));
}

#[test]
fn same_position_same_move() {
    let board = crowded_board(&FREE);
    let mut bot = SmartBot::new(Player1, scattered, 3);
    let first = bot.decide(&board, None);
    let second = bot.decide(&board, None);
    assert_eq!(first, second);
    let mut twin = SmartBot::new(Player1, scattered, 3);
    assert_eq!(twin.decide(&board, Some((0, 0))), first);
}

#[test]
fn bot_completes_its_five() {
    let mut board = Board::new();
    for col in 3..7 {
        assert_eq!(board.make_move(Player2, (7, col)), Ok(()));
        assert_eq!(board.make_move(Player1, (0, 2 * col)), Ok(()));
    }
    assert_eq!(board.make_move(Player1, (7, 2)), Ok(()));
    let mut bot = SmartBot::new(Player2, heuristic, 1);
    assert_eq!(bot.decide(&board, None), (7, 7));
}

#[test]
fn bot_plays_a_legal_move() {
    let board = crowded_board(&[(14, 14)]);
    let mut bot = SmartBot::new(Player1, heuristic, 3);
    assert_eq!(bot.decide(&board, None), (14, 14));
}

#[test]
fn heuristic_of_an_empty_board_is_zero() {
    assert_eq!(heuristic(&Board::new(), Player1), 0);
    assert_eq!(heuristic(&Board::new(), Player2), 0);
}

#[test]
fn heuristic_is_the_longest_streak_with_room() {
    let mut board = Board::new();
    assert_eq!(board.make_move(Player1, (7, 7)), Ok(()));
    assert_eq!(heuristic(&board, Player1), 1);
    assert_eq!(heuristic(&board, Player2), 0);
    assert_eq!(board.make_move(Player1, (8, 8)), Ok(()));
    assert_eq!(heuristic(&board, Player1), 2);
    assert_eq!(board.make_move(Player1, (9, 9)), Ok(()));
    assert_eq!(board.make_move(Player1, (10, 10)), Ok(()));
    assert_eq!(heuristic(&board, Player1), 4);
    assert_eq!(board.make_move(Player2, (6, 6)), Ok(()));
    assert_eq!(heuristic(&board, Player1), 4);
    assert_eq!(heuristic(&board, Player2), 1);
    assert_eq!(board.make_move(Player2, (11, 11)), Ok(()));
    assert_eq!(heuristic(&board, Player1), 1);
}

#[test]
fn heuristic_of_five_is_a_certain_win() {
    assert_eq!(CERTAIN_WIN, isize::MAX - 1);
    let mut board = Board::new();
    for row in 2..7 {
        assert_eq!(board.make_move(Player2, (row, 11)), Ok(()));
    }
    assert_eq!(heuristic(&board, Player2), CERTAIN_WIN);
    assert_eq!(heuristic(&board, Player1), 0);
    assert_eq!(board.make_move(Player2, (7, 11)), Ok(()));
    assert_eq!(heuristic(&board, Player2), CERTAIN_WIN);
}

#[test]
fn heuristic_of_a_crowded_board() {
    let board = crowded_board(&[]);
    assert_eq!(heuristic(&board, Player1), 0);
    assert_eq!(heuristic(&board, Player2), 0);
}

#[test]
fn certain_win_is_five_in_a_line() {
    let lines: [[Coord; 5]; 6] = [
        [(4, 4), (4, 5), (4, 6), (4, 7), (4, 8)],
        [(4, 4), (5, 4), (6, 4), (7, 4), (8, 4)],
        [(9, 2), (10, 3), (11, 4), (12, 5), (13, 6)],
        [(2, 9), (3, 10), (4, 11), (5, 12), (6, 13)],
        [(4, 8), (5, 7), (6, 6), (7, 5), (8, 4)],
        [(10, 14), (11, 13), (12, 12), (13, 11), (14, 10)],
    ];
    for line in lines.iter() {
        for player in [Player1, Player2] {
            let mut board = Board::new();
            for (n, coords) in line.iter().enumerate() {
                assert_ne!(heuristic(&board, player), CERTAIN_WIN);
                assert_eq!(heuristic(&board, player), n as isize);
                assert_eq!(check_end(&board), None);
                assert_eq!(board.make_move(player, *coords), Ok(()));
            }
            assert_eq!(heuristic(&board, player), CERTAIN_WIN);
            assert_eq!(check_end(&board), Some(Victory(player)));
            assert_eq!(heuristic(&board, other(player)), 0);
        }
    }
}

#[test]
fn bot_moves_in_a_game_that_is_won() {
    let mut board = Board::new();
    for col in 0..5 {
        assert_eq!(board.make_move(Player1, (0, col)), Ok(()));
    }
    assert_eq!(check_end(&board), Some(Victory(Player1)));
    let mut bot = SmartBot::new(Player2, heuristic, 2);
    let first = bot.decide(&board, None);
    let second = bot.decide(&board, Some((0, 4)));
    assert_eq!(first, second);
    assert_eq!(board.get(first.0, first.1), None);
}

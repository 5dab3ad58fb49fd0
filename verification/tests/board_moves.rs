use gomoku::board::{Board, Coord, MoveError, BOARD_SIZE};
use gomoku::game::PlayerIndicator::{Player1, Player2};

fn legal_moves(board: &Board) -> Vec<Coord> {
    let mut walk = board.possible_moves();
    let mut moves = Vec::new();
    while let Some(coords) = walk.next() {
        moves.push(coords);
    }
    moves
}

#[test]
fn board_is_fifteen_by_fifteen() {
    let board = Board::new();
    assert_eq!(BOARD_SIZE, 15);
    assert_eq!(board.width(), 15);
    assert_eq!(board.height(), 15);
}

#[test]
fn new_board_is_empty() {
    let board = Board::new();
    for row in 0..15 {
        for col in 0..15 {
            assert_eq!(board.get(row, col), None);
        }
    }
    assert!(!board.is_full());
}

#[test]
fn default_board_is_empty() {
    let board = Board::default();
    assert_eq!(legal_moves(&board).len(), 225);
}

#[test]
fn move_sets_one_cell() {
    let mut board = Board::new();
    assert_eq!(board.make_move(Player1, (3, 7)), Ok(()));
    for row in 0..15 {
        for col in 0..15 {
            let expected = if (row, col) == (3, 7) { Some(Player1) } else { None };
            assert_eq!(board.get(row, col), expected);
        }
    }
}

#[test]
fn move_off_the_board_is_refused() {
    let mut board = Board::new();
    assert_eq!(board.make_move(Player1, (15, 0)), Err(MoveError::OutOfBounds));
    assert_eq!(board.make_move(Player1, (0, 15)), Err(MoveError::OutOfBounds));
    assert_eq!(board.make_move(Player1, (usize::MAX, usize::MAX)), Err(MoveError::OutOfBounds));
    assert_eq!(legal_moves(&board).len(), 225);
}

#[test]
fn move_on_occupied_cell_is_refused() {
    let mut board = Board::new();
    assert_eq!(board.make_move(Player1, (14, 14)), Ok(()));
    assert_eq!(board.make_move(Player2, (14, 14)), Err(MoveError::OccupiedCell));
    assert_eq!(board.make_move(Player1, (14, 14)), Err(MoveError::OccupiedCell));
    assert_eq!(board.get(14, 14), Some(Player1));
    assert_eq!(legal_moves(&board).len(), 224);
}

#[test]
fn move_errors_have_messages() {
    assert_eq!(MoveError::OccupiedCell.message(), "Cell is already occupied.");
    assert_eq!(MoveError::OutOfBounds.message(), "Coordinates out of bounds.");
}

#[test]
fn legal_moves_come_in_row_major_order() {
    let board = Board::new();
    let moves = legal_moves(&board);
    assert_eq!(moves.len(), 225);
    for (k, coords) in moves.iter().enumerate() {
        assert_eq!(*coords, (k / 15, k % 15));
    }
}

#[test]
fn every_move_takes_its_coordinate_from_the_legal_moves() {
    let mut board = Board::new();
    let played = [(0, 0), (7, 7), (14, 14), (0, 14), (14, 0), (3, 9), (9, 3)];
    for (n, coords) in played.iter().enumerate() {
        let player = if n % 2 == 0 { Player1 } else { Player2 };
        assert_eq!(board.make_move(player, *coords), Ok(()));
        let moves = legal_moves(&board);
        assert_eq!(moves.len(), 225 - (n + 1));
        for done in &played[..=n] {
            assert!(!moves.contains(done));
        }
        for pair in moves.windows(2) {
            assert!(pair[0].0 * 15 + pair[0].1 < pair[1].0 * 15 + pair[1].1);
        }
    }
}

#[test]
fn walk_does_not_see_later_moves() {
    let mut board = Board::new();
    assert_eq!(board.make_move(Player1, (0, 0)), Ok(()));
    let snapshot = board.clone();
    assert_eq!(board.make_move(Player2, (0, 1)), Ok(()));
    let mut walk = snapshot.possible_moves();
    assert_eq!(walk.next(), Some((0, 1)));
    assert_eq!(walk.next(), Some((0, 2)));
    let mut fresh = board.possible_moves();
    assert_eq!(fresh.next(), Some((0, 2)));
}

#[test]
fn walk_ends_with_none_and_stays_there() {
    let mut board = Board::new();
    for row in 0..15 {
        for col in 0..15 {
            if (row, col) != (14, 13) {
                assert_eq!(board.make_move(Player1, (row, col)), Ok(()));
            }
        }
    }
    assert!(!board.is_full());
    let mut walk = board.possible_moves();
    assert_eq!(walk.next(), Some((14, 13)));
    assert_eq!(walk.next(), None);
    assert_eq!(walk.next(), None);
    assert_eq!(board.make_move(Player2, (14, 13)), Ok(()));
    assert!(board.is_full());
    assert_eq!(board.possible_moves().next(), None);
}

#[test]
fn clone_is_a_copy_of_its_own() {
    let mut board = Board::new();
    assert_eq!(board.make_move(Player1, (5, 5)), Ok(()));
    let mut copy = board.clone();
    assert_eq!(copy.get(5, 5), Some(Player1));
    assert_eq!(copy.make_move(Player2, (6, 6)), Ok(()));
    assert_eq!(board.get(6, 6), None);
    assert_eq!(copy.get(6, 6), Some(Player2));
}

#[test]
fn picture_of_the_empty_board() {
    let mut expected = String::new();
    expected.push_str("   _ _ _ _ _ _ _ _ _ _ _ _ _ _ _\n");
    for row in "0123456789ABCDE".chars() {
        expected.push(row);
        expected.push_str(" |_|_|_|_|_|_|_|_|_|_|_|_|_|_|_|\n");
    }
    expected.push_str("   0 1 2 3 4 5 6 7 8 9 A B C D E\n");
    assert_eq!(Board::new().render(), expected);
}

#[test]
fn picture_shows_the_stones() {
    let mut board = Board::new();
    assert_eq!(board.make_move(Player1, (0, 0)), Ok(()));
    assert_eq!(board.make_move(Player2, (0, 14)), Ok(()));
    assert_eq!(board.make_move(Player2, (10, 3)), Ok(()));
    assert_eq!(board.make_move(Player1, (14, 14)), Ok(()));
    let text = board.render();
    let lines: Vec<&str> = text.lines().collect();
    assert_eq!(lines.len(), 17);
    assert_eq!(lines[0], "   _ _ _ _ _ _ _ _ _ _ _ _ _ _ _");
    assert_eq!(lines[1], "0 |1|_|_|_|_|_|_|_|_|_|_|_|_|_|2|");
    assert_eq!(lines[2], "1 |_|_|_|_|_|_|_|_|_|_|_|_|_|_|_|");
    assert_eq!(lines[11], "A |_|_|_|2|_|_|_|_|_|_|_|_|_|_|_|");
    assert_eq!(lines[15], "E |_|_|_|_|_|_|_|_|_|_|_|_|_|_|1|");
    assert_eq!(lines[16], "   0 1 2 3 4 5 6 7 8 9 A B C D E");
    assert!(text.ends_with('\n'));
}

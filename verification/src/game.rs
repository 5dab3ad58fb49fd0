use crate::board::{in_bounds, Board, Coord, MoveError};
use crate::players::{ready, Player};
use vstd::prelude::*;

verus! {

/// Length of the run that wins the game.
pub const VICTORY_STREAK: usize = 5;

/// One of the two sides of a game.
#[derive(Debug, Clone, Copy, PartialEq, Eq, Structural)]
pub enum PlayerIndicator {
    Player1,
    Player2,
}

impl PlayerIndicator {
    /// The other side.
    pub open spec fn spec_opponent(self) -> PlayerIndicator {
        match self {
            PlayerIndicator::Player1 => PlayerIndicator::Player2,
            PlayerIndicator::Player2 => PlayerIndicator::Player1,
        }
    }

    /// The other side.
    #[verifier::when_used_as_spec(spec_opponent)]
    pub fn opponent(self) -> (other: PlayerIndicator)
        ensures
            other == self.spec_opponent(),
    {
        match self {
            PlayerIndicator::Player1 => PlayerIndicator::Player2,
            PlayerIndicator::Player2 => PlayerIndicator::Player1,
        }
    }
}

/// How a game has ended.
#[derive(Debug, Clone, Copy, PartialEq, Eq, Structural)]
pub enum EndGame {
    Victory(PlayerIndicator),
    Draw,
}

/// Whether the cell lies on the board and holds a stone of `player`.
pub open spec fn owns(board: Board, player: PlayerIndicator, row: int, col: int) -> bool {
    in_bounds(row, col) && board.cell(row, col) == Some(player)
}

/// Whether `player` owns the five cells that start at the given cell and
/// follow each other by the step (`dr`, `dc`).
pub open spec fn five_from(board: Board, player: PlayerIndicator, row: int, col: int, dr: int, dc: int) -> bool {
    &&& owns(board, player, row, col)
    &&& owns(board, player, row + dr, col + dc)
    &&& owns(board, player, row + 2 * dr, col + 2 * dc)
    &&& owns(board, player, row + 3 * dr, col + 3 * dc)
    &&& owns(board, player, row + 4 * dr, col + 4 * dc)
}

/// The four steps along which five cells make a line: to the right, down,
/// down to the right, down to the left.
pub open spec fn is_step(dr: int, dc: int) -> bool {
    ||| (dr == 0 && dc == 1)
    ||| (dr == 1 && dc == 0)
    ||| (dr == 1 && dc == 1)
    ||| (dr == 1 && dc == -1)
}

/// Whether `player` has five in a line somewhere on the board.
pub open spec fn wins(board: Board, player: PlayerIndicator) -> bool {
    exists|row: int, col: int, dr: int, dc: int| is_step(dr, dc) && #[trigger] five_from(board, player, row, col, dr, dc)
}

/// The place of a five in the order in which the board is searched. Rows come
/// first, from the top, each from the left. Columns follow, from the left,
/// each from the top. Diagonals come last, by their first cell in row-major
/// order, at each cell the one down to the right before the one down to the
/// left.
pub open spec fn search_rank(row: int, col: int, dr: int, dc: int) -> int {
    if dr == 0 {
        row * 15 + col
    } else if dc == 0 {
        225 + col * 15 + row
    } else if dc == 1 {
        450 + 2 * (row * 15 + col)
    } else {
        451 + 2 * (row * 15 + col)
    }
}

/// Whether the search meets no five of either player before the given place.
pub open spec fn no_five_before(board: Board, rank: int) -> bool {
    forall|player: PlayerIndicator, row: int, col: int, dr: int, dc: int|
        is_step(dr, dc) && #[trigger] five_from(board, player, row, col, dr, dc) ==> search_rank(row, col, dr, dc) >= rank
}

/// Whether the first five that the search meets is one of `player`.
pub open spec fn decided_for(board: Board, player: PlayerIndicator) -> bool {
    exists|row: int, col: int, dr: int, dc: int|
        is_step(dr, dc) && #[trigger] five_from(board, player, row, col, dr, dc) && no_five_before(board, search_rank(row, col, dr, dc))
}

/// The state of the game on a board: won by the player whose five the search
/// meets first, drawn when nobody has a five and the board is full, open
/// (`None`) otherwise.
pub open spec fn outcome(board: Board) -> Option<EndGame> {
    if decided_for(board, PlayerIndicator::Player1) {
        Some(EndGame::Victory(PlayerIndicator::Player1))
    } else if decided_for(board, PlayerIndicator::Player2) {
        Some(EndGame::Victory(PlayerIndicator::Player2))
    } else if board.full() {
        Some(EndGame::Draw)
    } else {
        None
    }
}

/// What one stage of the search has found: a five of the winner that nothing
/// precedes, or that no five lies before `limit`.
pub open spec fn stage_result(board: Board, found: Option<EndGame>, limit: int) -> bool {
    match found {
        Some(EndGame::Victory(player)) => decided_for(board, player),
        Some(EndGame::Draw) => false,
        None => no_five_before(board, limit),
    }
}

/// The next length of a run, given the cell that is read and the cell before
/// it.
fn run_length(cell: Option<PlayerIndicator>, tracking: Option<PlayerIndicator>, streak: usize) -> (next: usize)
    requires
        streak < VICTORY_STREAK,
    ensures
        next == (if cell is None {
            0
        } else if cell == tracking {
            streak + 1
        } else {
            1
        }),
{
    match (cell, tracking) {
        (Some(c), Some(t)) => if c == t {
            streak + 1
        } else {
            1
        },
        (Some(_), None) => 1,
        (None, _) => 0,
    }
}

/// Searches the rows for five in a line.
fn check_for_horizontal_victory(board: &Board) -> (found: Option<EndGame>)
    ensures
        stage_result(*board, found, 225),
{
    let mut i: usize = 0;
    while i < 15
        invariant
            i <= 15,
            no_five_before(*board, i * 15),
        decreases 15 - i,
    {
        let mut tracking: Option<PlayerIndicator> = None;
        let mut streak: usize = 0;
        let mut j: usize = 0;
        while j < 15
            invariant
                i < 15,
                j <= 15,
                streak <= j,
                streak < VICTORY_STREAK,
                j > 0 ==> tracking == board.cell(i as int, j - 1),
                j == 0 ==> tracking is None,
                streak == 0 ==> tracking is None,
                streak > 0 ==> tracking is Some,
                forall|c: int| j - streak <= c < j ==> board.cell(i as int, c) == tracking,
                streak < j ==> board.cell(i as int, j - streak - 1) != tracking || tracking is None,
                no_five_before(*board, i * 15 + if j >= 4 { j - 4 } else { 0 }),
            decreases 15 - j,
        {
            let cell = board.get(i, j);
            streak = run_length(cell, tracking, streak);
            if streak >= VICTORY_STREAK {
                proof {
                    let player = cell->0;
                    assert(five_from(*board, player, i as int, j - 4, 0, 1));
                }
                return match tracking {
                    Some(player) => Some(EndGame::Victory(player)),
                    None => None,
                };
            }
            tracking = cell;
            j += 1;
        }
        i += 1;
    }
    None
}

/// Searches the columns for five in a line. The rows have been searched.
fn check_for_vertical_victory(board: &Board) -> (found: Option<EndGame>)
    requires
        no_five_before(*board, 225),
    ensures
        stage_result(*board, found, 450),
{
    let mut j: usize = 0;
    while j < 15
        invariant
            j <= 15,
            no_five_before(*board, 225 + j * 15),
        decreases 15 - j,
    {
        let mut tracking: Option<PlayerIndicator> = None;
        let mut streak: usize = 0;
        let mut i: usize = 0;
        while i < 15
            invariant
                j < 15,
                i <= 15,
                streak <= i,
                streak < VICTORY_STREAK,
                i > 0 ==> tracking == board.cell(i - 1, j as int),
                i == 0 ==> tracking is None,
                streak == 0 ==> tracking is None,
                streak > 0 ==> tracking is Some,
                forall|r: int| i - streak <= r < i ==> board.cell(r, j as int) == tracking,
                streak < i ==> board.cell(i - streak - 1, j as int) != tracking || tracking is None,
                no_five_before(*board, 225 + j * 15 + if i >= 4 { i - 4 } else { 0 }),
            decreases 15 - i,
        {
            let cell = board.get(i, j);
            streak = run_length(cell, tracking, streak);
            if streak >= VICTORY_STREAK {
                proof {
                    let player = cell->0;
                    assert(five_from(*board, player, i - 4, j as int, 1, 0));
                }
                return match tracking {
                    Some(player) => Some(EndGame::Victory(player)),
                    None => None,
                };
            }
            tracking = cell;
            i += 1;
        }
        j += 1;
    }
    None
}

/// The step across the columns of a diagonal that runs down the board, to the
/// right or (`reverse`) to the left.
pub open spec fn column_step(reverse: bool) -> int {
    if reverse {
        -1
    } else {
        1
    }
}

/// Whether `player` owns cell `k` of the diagonal that starts at the given
/// cell and runs down the board, to the right or (`reverse`) to the left.
spec fn owns_nth(board: Board, player: PlayerIndicator, row: int, col: int, reverse: bool, k: int) -> bool {
    owns(board, player, row + k, if reverse { col - k } else { col + k })
}

/// A diagonal whose first cell is of `owner` and one of whose next four cells
/// is not holds no five.
proof fn lemma_broken_diagonal(board: Board, owner: PlayerIndicator, row: int, col: int, reverse: bool, n: int)
    requires
        owns(board, owner, row, col),
        1 <= n < 5,
        !owns_nth(board, owner, row, col, reverse, n),
    ensures
        forall|player: PlayerIndicator| !#[trigger] five_from(board, player, row, col, 1, column_step(reverse)),
{
    assert forall|player: PlayerIndicator| !#[trigger] five_from(board, player, row, col, 1, column_step(reverse)) by {
        if player == owner {
            if n == 1 {
                assert(!owns(board, owner, row + 1, if reverse { col - 1 } else { col + 1 }));
            } else if n == 2 {
                assert(!owns(board, owner, row + 2, if reverse { col - 2 } else { col + 2 }));
            } else if n == 3 {
                assert(!owns(board, owner, row + 3, if reverse { col - 3 } else { col + 3 }));
            } else {
                assert(!owns(board, owner, row + 4, if reverse { col - 4 } else { col + 4 }));
            }
        }
    }
}

/// Whether `player` owns the five cells that start at `coords` and run down
/// the board, to the right or (`reverse`) to the left.
pub open spec fn diagonal_five(board: Board, player: PlayerIndicator, coords: (usize, usize), reverse: bool) -> bool {
    five_from(board, player, coords.0 as int, coords.1 as int, 1, column_step(reverse))
}

/// Whether the five cells that start at `coords` and run down the board, to
/// the right or (`reverse`) to the left, belong to one player.
fn diagonal_cell_search(board: &Board, coords: (usize, usize), reverse: bool) -> (found: Option<EndGame>)
    requires
        coords.0 + VICTORY_STREAK <= 15,
        !reverse ==> coords.1 + VICTORY_STREAK <= 15,
        reverse ==> VICTORY_STREAK - 1 <= coords.1 < 15,
    ensures
        match found {
            Some(EndGame::Victory(player)) => diagonal_five(*board, player, coords, reverse),
            Some(EndGame::Draw) => false,
            None => forall|player: PlayerIndicator| !#[trigger] diagonal_five(*board, player, coords, reverse),
        },
{
    let (mut i, mut j) = (coords.0, coords.1);
    let tracking = match board.get(i, j) {
        Some(player) => player,
        None => {
            return None;
        },
    };
    let mut n: usize = 1;
    assert(owns_nth(*board, tracking, coords.0 as int, coords.1 as int, reverse, 0));
    while n < VICTORY_STREAK
        invariant
            1 <= n <= VICTORY_STREAK,
            coords.0 + VICTORY_STREAK <= 15,
            !reverse ==> coords.1 + VICTORY_STREAK <= 15,
            reverse ==> VICTORY_STREAK - 1 <= coords.1 < 15,
            i == coords.0 + n - 1,
            j == (if reverse { coords.1 - (n - 1) } else { coords.1 + (n - 1) }),
            forall|k: int| 0 <= k < n ==> owns_nth(*board, tracking, coords.0 as int, coords.1 as int, reverse, k),
        decreases VICTORY_STREAK - n,
    {
        i += 1;
        j = if reverse {
            j - 1
        } else {
            j + 1
        };
        match board.get(i, j) {
            Some(player) => {
                if player != tracking {
                    proof {
                        assert(owns_nth(*board, tracking, coords.0 as int, coords.1 as int, reverse, 0));
                        lemma_broken_diagonal(*board, tracking, coords.0 as int, coords.1 as int, reverse, n as int);
                    }
                    return None;
                }
            },
            None => {
                proof {
                    assert(owns_nth(*board, tracking, coords.0 as int, coords.1 as int, reverse, 0));
                    lemma_broken_diagonal(*board, tracking, coords.0 as int, coords.1 as int, reverse, n as int);
                }
                return None;
            },
        }
        assert(owns_nth(*board, tracking, coords.0 as int, coords.1 as int, reverse, n as int));
        n += 1;
    }
    proof {
        assert(owns_nth(*board, tracking, coords.0 as int, coords.1 as int, reverse, 0));
        assert(owns_nth(*board, tracking, coords.0 as int, coords.1 as int, reverse, 1));
        assert(owns_nth(*board, tracking, coords.0 as int, coords.1 as int, reverse, 2));
        assert(owns_nth(*board, tracking, coords.0 as int, coords.1 as int, reverse, 3));
        assert(owns_nth(*board, tracking, coords.0 as int, coords.1 as int, reverse, 4));
    }
    Some(EndGame::Victory(tracking))
}

/// Searches the diagonals for five in a line. The rows and the columns have
/// been searched.
fn check_for_diagonal_victory(board: &Board) -> (found: Option<EndGame>)
    requires
        no_five_before(*board, 450),
    ensures
        stage_result(*board, found, 900),
{
    let height = board.height();
    let width = board.width();
    let mut i: usize = 0;
    while i < height + 1 - VICTORY_STREAK
        invariant
            height == 15,
            width == 15,
            i <= 11,
            no_five_before(*board, 450 + 2 * (i * 15)),
        decreases 11 - i,
    {
        let mut j: usize = 0;
        while j < width
            invariant
                width == 15,
                i < 11,
                j <= 15,
                no_five_before(*board, 450 + 2 * (i * 15 + j)),
            decreases 15 - j,
        {
            if j <= width - VICTORY_STREAK {
                let end = diagonal_cell_search(board, (i, j), false);
                if end.is_some() {
                    proof {
                        assert(diagonal_five(*board, end->0->0, (i, j), false));
                    }
                    return end;
                }
            }
            assert(no_five_before(*board, 451 + 2 * (i * 15 + j))) by {
                assert forall|player: PlayerIndicator, row: int, col: int, dr: int, dc: int|
                    is_step(dr, dc) && #[trigger] five_from(*board, player, row, col, dr, dc) implies search_rank(row, col, dr, dc) >= 451 + 2 * (i * 15 + j) by {
                    if search_rank(row, col, dr, dc) == 450 + 2 * (i * 15 + j) {
                        assert(row == i && col == j && dr == 1 && dc == 1);
                        assert(j <= 10);
                        assert(!diagonal_five(*board, player, (i, j), false));
                    }
                }
            }
            if j >= VICTORY_STREAK - 1 {
                let end = diagonal_cell_search(board, (i, j), true);
                if end.is_some() {
                    proof {
                        assert(diagonal_five(*board, end->0->0, (i, j), true));
                    }
                    return end;
                }
            }
            assert(no_five_before(*board, 452 + 2 * (i * 15 + j))) by {
                assert forall|player: PlayerIndicator, row: int, col: int, dr: int, dc: int|
                    is_step(dr, dc) && #[trigger] five_from(*board, player, row, col, dr, dc) implies search_rank(row, col, dr, dc) >= 452 + 2 * (i * 15 + j) by {
                    if search_rank(row, col, dr, dc) == 451 + 2 * (i * 15 + j) {
                        assert(row == i && col == j && dr == 1 && dc == -1);
                        assert(j >= 4);
                        assert(!diagonal_five(*board, player, (i, j), true));
                    }
                }
            }
            j += 1;
        }
        i += 1;
    }
    None
}

/// Who wins on both counts does so on one: the five that the search meets
/// first belongs to one player.
pub proof fn lemma_one_winner(board: Board)
    ensures
        !(decided_for(board, PlayerIndicator::Player1) && decided_for(board, PlayerIndicator::Player2)),
        forall|player: PlayerIndicator| decided_for(board, player) ==> wins(board, player),
{
    if decided_for(board, PlayerIndicator::Player1) && decided_for(board, PlayerIndicator::Player2) {
        let (r1, c1, dr1, dc1) = choose|row: int, col: int, dr: int, dc: int|
            is_step(dr, dc) && #[trigger] five_from(board, PlayerIndicator::Player1, row, col, dr, dc) && no_five_before(
                board,
                search_rank(row, col, dr, dc),
            );
        let (r2, c2, dr2, dc2) = choose|row: int, col: int, dr: int, dc: int|
            is_step(dr, dc) && #[trigger] five_from(board, PlayerIndicator::Player2, row, col, dr, dc) && no_five_before(
                board,
                search_rank(row, col, dr, dc),
            );
        assert(search_rank(r1, c1, dr1, dc1) == search_rank(r2, c2, dr2, dc2));
        assert(r1 == r2 && c1 == c2);
    }
}

/// The state of the game on a board: the winner, a draw, or `None` while the
/// game is open. Where both players have five in a line, which no game
/// reaches by legal moves, the five that the search meets first decides.
pub fn check_end(board: &Board) -> (end: Option<EndGame>)
    ensures
        end == outcome(*board),
        end is Some && end->0 is Victory <==> wins(*board, PlayerIndicator::Player1) || wins(*board, PlayerIndicator::Player2),
        forall|player: PlayerIndicator| end == Some(EndGame::Victory(player)) ==> wins(*board, player),
{
    proof {
        lemma_one_winner(*board);
    }
    if let Some(end) = check_for_horizontal_victory(board) {
        return Some(end);
    }
    if let Some(end) = check_for_vertical_victory(board) {
        return Some(end);
    }
    if let Some(end) = check_for_diagonal_victory(board) {
        return Some(end);
    }
    if board.is_full() {
        Some(EndGame::Draw)
    } else {
        None
    }
}

/// Why a move on `coords` is refused on `board`, if it is: a coordinate off
/// the board first, an occupied cell second.
pub open spec fn refusal(board: Board, coords: Coord) -> Option<MoveError> {
    if !in_bounds(coords.0 as int, coords.1 as int) {
        Some(MoveError::OutOfBounds)
    } else if board.cell(coords.0 as int, coords.1 as int) is Some {
        Some(MoveError::OccupiedCell)
    } else {
        None
    }
}

/// The player who makes move number `n`, counted from 0: Player1 begins and
/// the two take turns.
pub open spec fn turn_at(n: nat) -> PlayerIndicator {
    if n % 2 == 0 {
        PlayerIndicator::Player1
    } else {
        PlayerIndicator::Player2
    }
}

/// The moves of a game with the player who made each.
pub open spec fn stones_of(moves: Seq<Coord>) -> Seq<(PlayerIndicator, Coord)> {
    Seq::new(moves.len(), |k: int| (turn_at(k as nat), moves[k]))
}

/// How many of the next `turns` requests go to `player` when it is the turn
/// of `turn` and every move is accepted.
pub open spec fn requests_to(player: PlayerIndicator, turn: PlayerIndicator, turns: nat) -> nat {
    if player == turn {
        (turns + 1) / 2
    } else {
        turns / 2
    }
}

/// A game between two players: the board, whose turn it is, and the moves
/// made so far.
#[derive(Debug)]
pub struct Game<P: Player, Q: Player> {
    board: Board,
    player1: P,
    player2: Q,
    current_turn: PlayerIndicator,
    moves: Vec<Coord>,
}

impl<P: Player, Q: Player> Game<P, Q> {
    /// The board of the game.
    pub closed spec fn position(&self) -> Board {
        self.board
    }

    /// The moves made so far, in order.
    pub closed spec fn history(&self) -> Seq<Coord> {
        self.moves@
    }

    /// The player who moves next.
    pub closed spec fn turn(&self) -> PlayerIndicator {
        self.current_turn
    }

    /// The first player.
    pub closed spec fn first(&self) -> P {
        self.player1
    }

    /// The second player.
    pub closed spec fn second(&self) -> Q {
        self.player2
    }

    /// Whether the game is in order: the moves lie on the board, no two on
    /// the same cell, the board holds exactly their stones, Player1's on the
    /// even moves and Player2's on the odd ones, and the turn follows from
    /// their number.
    pub open spec fn wf(&self) -> bool {
        &&& self.history().len() <= 225
        &&& forall|k: int| 0 <= k < self.history().len() ==> in_bounds((#[trigger] self.history()[k]).0 as int, self.history()[k].1 as int)
        &&& forall|i: int, j: int| 0 <= i < j < self.history().len() ==> #[trigger] self.history()[i] != #[trigger] self.history()[j]
        &&& self.position() == Board::after(stones_of(self.history()))
        &&& self.turn() == turn_at(self.history().len())
    }

    /// Whether board, moves and turn are as in `before`. Nothing is said of
    /// the players.
    pub open spec fn unchanged(&self, before: &Self) -> bool {
        &&& self.position() == before.position()
        &&& self.history() == before.history()
        &&& self.turn() == before.turn()
    }

    /// Whether the game stands as `before` did with one more move, on
    /// `coords`.
    pub open spec fn advanced(&self, before: &Self, coords: Coord) -> bool {
        &&& self.position() == before.position().place(before.turn(), coords.0 as int, coords.1 as int)
        &&& self.history() == before.history().push(coords)
        &&& self.turn() == before.turn().spec_opponent()
    }

    /// What a move on `coords` does to the game `before`: a coordinate off the
    /// board or on an occupied cell is refused and changes nothing; any other
    /// puts the stone of the player to move, hands the turn over and tells how
    /// the game stands then.
    pub open spec fn moved(&self, before: &Self, coords: Coord, result: Result<Option<EndGame>, MoveError>) -> bool {
        match refusal(before.position(), coords) {
            Some(error) => result == Err::<Option<EndGame>, MoveError>(error) && self.unchanged(before),
            None => result == Ok::<Option<EndGame>, MoveError>(outcome(self.position())) && self.advanced(before, coords),
        }
    }

    /// What a request for a move does to the players: the one whose turn it
    /// was has one answer less to give, the other is as before.
    pub open spec fn asked(&self, before: &Self) -> bool {
        match before.turn() {
            PlayerIndicator::Player1 => {
                &&& self.second() == before.second()
                &&& forall|turns: nat| before.first().can_answer(turns + 1) ==> #[trigger] self.first().can_answer(turns)
            },
            PlayerIndicator::Player2 => {
                &&& self.first() == before.first()
                &&& forall|turns: nat| before.second().can_answer(turns + 1) ==> #[trigger] self.second().can_answer(turns)
            },
        }
    }

    /// The last move made, if there is one.
    pub open spec fn last_move(&self) -> Option<Coord> {
        if self.history().len() > 0 {
            Some(self.history().last())
        } else {
            None
        }
    }

    /// Whether `coords` is what the player whose turn it was in `before`
    /// answered when it was shown the board of `before` and the last move
    /// made there, and the player is afterwards as it is in this game.
    pub open spec fn answered(&self, before: &Self, coords: Coord) -> bool {
        match before.turn() {
            PlayerIndicator::Player1 => before.first().answers(before.position(), before.last_move(), coords, &self.first()),
            PlayerIndicator::Player2 => before.second().answers(before.position(), before.last_move(), coords, &self.second()),
        }
    }

    /// Whether the player whose turn it is can be asked for a move: it has an
    /// answer left, and the board has an empty cell if the player needs one.
    pub open spec fn ready(&self) -> bool {
        match self.turn() {
            PlayerIndicator::Player1 => ready(self.first()) && (self.first().needs_room() ==> !self.position().full()),
            PlayerIndicator::Player2 => ready(self.second()) && (self.second().needs_room() ==> !self.position().full()),
        }
    }

    /// Whether both players can answer their share of the next `turns`
    /// requests.
    pub open spec fn can_play(&self, turns: nat) -> bool {
        &&& self.first().can_answer(requests_to(PlayerIndicator::Player1, self.turn(), turns))
        &&& self.second().can_answer(requests_to(PlayerIndicator::Player2, self.turn(), turns))
    }

    /// Whether the game is `before` in every part, players included.
    pub open spec fn same(&self, before: &Self) -> bool {
        &&& self.unchanged(before)
        &&& self.first() == before.first()
        &&& self.second() == before.second()
    }

    /// Whether the game comes from `before` by one turn: the player whose
    /// turn it was answered `coords`, the move was accepted and made.
    pub open spec fn turned(&self, before: &Self, coords: Coord) -> bool {
        &&& refusal(before.position(), coords) is None
        &&& self.advanced(before, coords)
        &&& self.answered(before, coords)
        &&& self.asked(before)
    }

    /// Whether the game comes from `before` by a request that failed: the
    /// player whose turn it was answered `coords`, the move was refused with
    /// `error`, and nothing but that player has changed.
    pub open spec fn refused(&self, before: &Self, coords: Coord, error: MoveError) -> bool {
        &&& refusal(before.position(), coords) == Some(error)
        &&& self.unchanged(before)
        &&& self.answered(before, coords)
        &&& self.asked(before)
    }

    /// Whether the game comes from `before` by `count` turns, each the
    /// accepted answer of the player whose turn it was, with the game open
    /// after every turn but the last.
    pub open spec fn played(&self, before: &Self, count: nat) -> bool
        decreases count,
    {
        if count == 0 {
            self.same(before)
        } else {
            exists|middle: Self, coords: Coord|
                #![trigger self.turned(&middle, coords)]
                middle.played(before, (count - 1) as nat) && (count > 1 ==> outcome(middle.position()) is None) && self.turned(&middle, coords)
        }
    }

    /// Whether the game comes from `before` by `count` turns and one request
    /// more, the answer to which was refused with `error`.
    pub open spec fn stopped(&self, before: &Self, count: nat, error: MoveError) -> bool {
        exists|middle: Self, coords: Coord|
            #![trigger self.refused(&middle, coords, error)]
            middle.played(before, count) && (count > 0 ==> outcome(middle.position()) is None) && self.refused(&middle, coords, error)
    }

    /// Whether the players can be asked for as long as up to `turns` turns
    /// take: wherever fewer than `turns` turns lead from this game, with the
    /// game open after each, the player whose turn it is there can be asked.
    pub open spec fn stays_ready(&self, turns: nat) -> bool {
        forall|count: nat, middle: Self|
            #![trigger middle.played(self, count)]
            count < turns && middle.played(self, count) && (count > 0 ==> outcome(middle.position()) is None) ==> middle.ready()
    }

    /// A game on the empty board, with Player1 to move.
    pub fn new(player1: P, player2: Q) -> (game: Self)
        ensures
            game.wf(),
            game.position() == Board::empty(),
            game.history() == Seq::<Coord>::empty(),
            game.turn() == PlayerIndicator::Player1,
            game.first() == player1,
            game.second() == player2,
    {
        let game = Self { board: Board::new(), player1, player2, current_turn: PlayerIndicator::Player1, moves: Vec::new() };
        assert(stones_of(game.history()) =~= Seq::empty());
        game
    }

    /// The board of the game.
    pub fn board(&self) -> (board: &Board)
        ensures
            *board == self.position(),
    {
        &self.board
    }

    /// The moves made so far, in order.
    pub fn moves(&self) -> (moves: &Vec<Coord>)
        ensures
            moves@ == self.history(),
    {
        &self.moves
    }

    /// The player who moves next.
    pub fn current_turn(&self) -> (turn: PlayerIndicator)
        ensures
            turn == self.turn(),
    {
        self.current_turn
    }

    /// Makes the move `coords` for the player whose turn it is.
    pub fn make_move(&mut self, coords: Coord) -> (result: Result<Option<EndGame>, MoveError>)
        requires
            old(self).wf(),
        ensures
            final(self).wf(),
            final(self).moved(old(self), coords, result),
            final(self).first() == old(self).first(),
            final(self).second() == old(self).second(),
    {
        match self.board.make_move(self.current_turn, coords) {
            Err(e) => Err(e),
            Ok(()) => {
                proof {
                    old(self).lemma_fresh_cell(coords);
                }
                self.moves.push(coords);
                self.current_turn = self.current_turn.opponent();
                proof {
                    let before = stones_of(old(self).history());
                    let after = stones_of(self.history());
                    assert(after.drop_last() =~= before);
                    assert(after.last() == (old(self).turn(), coords));
                    Board::lemma_moves_left(before);
                }
                Ok(self.check_end())
            },
        }
    }

    /// Asks the player whose turn it is for a move, once, and makes it. The
    /// player is shown the board as it stands and the last move made. Its
    /// answer is the move: where it is refused the refusal is the result and
    /// the game is as it was, with the same player to move.
    pub fn play_turn(&mut self) -> (result: Result<Option<EndGame>, MoveError>)
        requires
            old(self).wf(),
            old(self).ready(),
        ensures
            final(self).wf(),
            final(self).asked(old(self)),
            exists|coords: Coord| #[trigger] final(self).moved(old(self), coords, result) && final(self).answered(old(self), coords),
            match result {
                Ok(end) => end == outcome(final(self).position()) && exists|coords: Coord| #[trigger] final(self).turned(old(self), coords),
                Err(error) => exists|coords: Coord| #[trigger] final(self).refused(old(self), coords, error),
            },
    {
        let last_move = if self.moves.len() > 0 {
            Some(self.moves[self.moves.len() - 1])
        } else {
            None
        };
        let coords = match self.current_turn {
            PlayerIndicator::Player1 => self.player1.decide(&self.board, last_move),
            PlayerIndicator::Player2 => self.player2.decide(&self.board, last_move),
        };
        let result = self.make_move(coords);
        proof {
            assert(self.moved(old(self), coords, result) && self.answered(old(self), coords));
            match result {
                Ok(_) => {
                    assert(self.turned(old(self), coords));
                },
                Err(error) => {
                    assert(self.refused(old(self), coords, error));
                },
            }
        }
        result
    }

    /// Plays up to `turns` turns and stops at the end of the game or at the
    /// first answer that is refused. `Ok(None)`: all turns were played and
    /// the game is open. `Ok(Some(end))`: the game ended with the last turn
    /// played, and not before. `Err(error)`: fewer turns were played, and the
    /// answer to the next request was refused with `error`. Every turn is
    /// the accepted answer of the player whose turn it was. The players must
    /// be such that they can be asked at every request that is made, which
    /// `lemma_stays_ready` shows of players that can answer their shares.
    pub fn play_turns(&mut self, turns: u32) -> (result: Result<Option<EndGame>, MoveError>)
        requires
            old(self).wf(),
            old(self).stays_ready(turns as nat),
        ensures
            final(self).wf(),
            old(self).history().is_prefix_of(final(self).history()),
            match result {
                Ok(None) => {
                    &&& final(self).played(old(self), turns as nat)
                    &&& turns > 0 ==> outcome(final(self).position()) is None
                },
                Ok(Some(end)) => {
                    &&& exists|count: nat| 0 < count <= turns && #[trigger] final(self).played(old(self), count)
                    &&& outcome(final(self).position()) == Some(end)
                },
                Err(error) => exists|count: nat| count < turns && #[trigger] final(self).stopped(old(self), count, error),
            },
    {
        let mut played: u32 = 0;
        while played < turns
            invariant
                played <= turns,
                self.wf(),
                old(self).history().is_prefix_of(self.history()),
                self.played(old(self), played as nat),
                played > 0 ==> outcome(self.position()) is None,
                old(self).stays_ready(turns as nat),
            decreases turns - played,
        {
            let ghost before = *self;
            let result = self.play_turn();
            match result {
                Err(error) => {
                    proof {
                        let coords = choose|coords: Coord| #[trigger] self.refused(&before, coords, error);
                        assert(before.played(old(self), played as nat) && self.refused(&before, coords, error));
                        assert(self.stopped(old(self), played as nat, error));
                    }
                    return Err(error);
                },
                Ok(end) => {
                    proof {
                        let coords = choose|coords: Coord| #[trigger] self.turned(&before, coords);
                        self.lemma_one_more(old(self), &before, coords, played as nat);
                    }
                    if end.is_some() {
                        return Ok(end);
                    }
                },
            }
            played += 1;
        }
        Ok(None)
    }

    /// Plays until the game ends or an answer is refused. `Ok(end)`: the
    /// game ended with the last turn played, and not before. `Err(error)`:
    /// the answer to the request after the turns played was refused with
    /// `error`. Every turn is the accepted answer of the player whose turn it
    /// was. The players must be such that they can be asked at every request
    /// that is made, of which there are at most 226;
    /// `lemma_stays_ready_to_the_end` shows it of players that can answer
    /// their shares.
    pub fn play_to_end(&mut self) -> (result: Result<EndGame, MoveError>)
        requires
            old(self).wf(),
            old(self).stays_ready(226),
        ensures
            final(self).wf(),
            old(self).history().is_prefix_of(final(self).history()),
            match result {
                Ok(end) => {
                    &&& exists|count: nat| 0 < count <= 225 && #[trigger] final(self).played(old(self), count)
                    &&& outcome(final(self).position()) == Some(end)
                },
                Err(error) => exists|count: nat| count < 225 && #[trigger] final(self).stopped(old(self), count, error),
            },
    {
        let ghost mut played: nat = 0;
        loop
            invariant
                self.wf(),
                old(self).history().is_prefix_of(self.history()),
                self.history().len() == old(self).history().len() + played,
                self.played(old(self), played),
                played > 0 ==> outcome(self.position()) is None,
                old(self).stays_ready(226),
            decreases 225 - self.history().len(),
        {
            let ghost before = *self;
            proof {
                if played > 0 {
                    self.lemma_open_game();
                }
            }
            let result = self.play_turn();
            match result {
                Err(error) => {
                    proof {
                        let coords = choose|coords: Coord| #[trigger] self.refused(&before, coords, error);
                        assert(before.played(old(self), played) && self.refused(&before, coords, error));
                        assert(self.stopped(old(self), played, error));
                    }
                    return Err(error);
                },
                Ok(end) => {
                    proof {
                        let coords = choose|coords: Coord| #[trigger] self.turned(&before, coords);
                        before.lemma_fresh_cell(coords);
                        self.lemma_one_more(old(self), &before, coords, played);
                        played = played + 1;
                    }
                    if let Some(end) = end {
                        return Ok(end);
                    }
                },
            }
        }
    }

    /// One turn more: a game that comes by one turn from a game that came
    /// from `before` by `count` turns comes from `before` by `count + 1`.
    proof fn lemma_one_more(&self, before: &Self, middle: &Self, coords: Coord, count: nat)
        requires
            middle.played(before, count),
            count > 0 ==> outcome(middle.position()) is None,
            self.turned(middle, coords),
        ensures
            self.played(before, count + 1),
    {
        assert(middle.played(before, ((count + 1) - 1) as nat));
    }

    /// A turn keeps the game in order and adds one move to it.
    pub proof fn lemma_turned(&self, before: &Self, coords: Coord)
        requires
            before.wf(),
            self.turned(before, coords),
        ensures
            self.wf(),
            self.history().len() == before.history().len() + 1,
            before.history().is_prefix_of(self.history()),
    {
        before.lemma_fresh_cell(coords);
        let stones = stones_of(before.history());
        let after = stones_of(self.history());
        assert(after.drop_last() =~= stones);
        assert(after.last() == (before.turn(), coords));
        Board::lemma_moves_left(stones);
    }

    /// Turns keep the game in order, add a move each, and leave to each
    /// player what it can answer less its share of the turns.
    pub proof fn lemma_played(&self, before: &Self, count: nat)
        requires
            before.wf(),
            self.played(before, count),
        ensures
            self.wf(),
            self.history().len() == before.history().len() + count,
            before.history().is_prefix_of(self.history()),
            forall|turns: nat| count <= turns && before.can_play(turns) ==> #[trigger] self.can_play((turns - count) as nat),
        decreases count,
    {
        if count > 0 {
            let (middle, coords) = choose|middle: Self, coords: Coord|
                #![trigger self.turned(&middle, coords)]
                middle.played(before, (count - 1) as nat) && (count > 1 ==> outcome(middle.position()) is None) && self.turned(&middle, coords);
            middle.lemma_played(before, (count - 1) as nat);
            self.lemma_turned(&middle, coords);
            assert forall|turns: nat| count <= turns && before.can_play(turns) implies #[trigger] self.can_play((turns - count) as nat) by {
                let left = (turns - (count - 1)) as nat;
                assert(middle.can_play(left));
                assert(left >= 1);
                let share = requests_to(middle.turn(), middle.turn(), left);
                assert(share == (share - 1) as nat + 1);
            }
        }
    }

    /// Players that can answer their shares of `turns` requests can be asked
    /// for as long as `turns` turns take, if the first of them can be asked
    /// now.
    pub proof fn lemma_stays_ready(&self, turns: nat)
        requires
            self.wf(),
            self.can_play(turns),
            turns > 0 ==> self.ready(),
        ensures
            self.stays_ready(turns),
    {
        assert forall|count: nat, middle: Self|
            #![trigger middle.played(self, count)]
            count < turns && middle.played(self, count) && (count > 0 ==> outcome(middle.position()) is None) implies middle.ready() by {
            middle.lemma_played(self, count);
            if count > 0 {
                let left = (turns - count) as nat;
                assert(middle.can_play(left));
                let share = requests_to(middle.turn(), middle.turn(), left);
                assert(share > 0);
                assert(middle.turn() == PlayerIndicator::Player1 ==> middle.first().can_answer(share));
                assert(middle.turn() == PlayerIndicator::Player2 ==> middle.second().can_answer(share));
            }
        }
    }

    /// Players that can answer their shares of the moves that the board has
    /// room for can be asked until the game ends, if the first of them can be
    /// asked now.
    pub proof fn lemma_stays_ready_to_the_end(&self)
        requires
            self.wf(),
            self.can_play((225 - self.history().len()) as nat),
            self.ready(),
        ensures
            self.stays_ready(226),
    {
        let room = (225 - self.history().len()) as nat;
        assert forall|count: nat, middle: Self|
            #![trigger middle.played(self, count)]
            count < 226 && middle.played(self, count) && (count > 0 ==> outcome(middle.position()) is None) implies middle.ready() by {
            middle.lemma_played(self, count);
            if count > 0 {
                middle.lemma_open_game();
                let left = (room - count) as nat;
                assert(middle.can_play(left));
                let share = requests_to(middle.turn(), middle.turn(), left);
                assert(share > 0);
                assert(middle.turn() == PlayerIndicator::Player1 ==> middle.first().can_answer(share));
                assert(middle.turn() == PlayerIndicator::Player2 ==> middle.second().can_answer(share));
            }
        }
    }

    /// In an open game fewer than 225 moves have been made.
    proof fn lemma_open_game(&self)
        requires
            self.wf(),
            outcome(self.position()) is None,
        ensures
            self.history().len() < 225,
    {
        Board::lemma_moves_left(stones_of(self.history()));
        self.position().lemma_legal_moves();
    }

    /// Law of the game: the board holds the moves of the game and nothing
    /// else. Every move put its player's stone on its cell, every stone on the
    /// board is that of one move, and the empty cells are 225 less the number
    /// of moves, none of them a cell that was played.
    pub proof fn lemma_board_holds_the_moves(&self)
        requires
            self.wf(),
        ensures
            forall|k: int| 0 <= k < self.history().len() ==> self.position().cell((#[trigger] self.history()[k]).0 as int, self.history()[k].1 as int) == Some(
                turn_at(k as nat),
            ),
            forall|row: int, col: int| in_bounds(row, col) && (#[trigger] self.position().cell(row, col)) is Some
                ==> exists|k: int| 0 <= k < self.history().len() && #[trigger] self.history()[k] == (row as usize, col as usize),
            self.position().legal_moves().len() == 225 - self.history().len(),
            forall|k: int| 0 <= k < self.history().len() ==> !self.position().legal_moves().contains(#[trigger] self.history()[k]),
    {
        let stones = stones_of(self.history());
        Board::lemma_moves_left(stones);
        assert forall|k: int| 0 <= k < self.history().len() implies self.position().cell((#[trigger] self.history()[k]).0 as int, self.history()[k].1 as int) == Some(
            turn_at(k as nat),
        ) && !self.position().legal_moves().contains(self.history()[k]) by {
            assert(stones[k] == (turn_at(k as nat), self.history()[k]));
        }
        assert forall|row: int, col: int| in_bounds(row, col) && (#[trigger] self.position().cell(row, col)) is Some
            implies exists|k: int| 0 <= k < self.history().len() && #[trigger] self.history()[k] == (row as usize, col as usize) by {
            let k = choose|k: int| 0 <= k < stones.len() && (#[trigger] stones[k]).1 == (row as usize, col as usize);
            assert(self.history()[k] == (row as usize, col as usize));
        }
    }

    /// An empty cell of the board is none of the moves made, and the board is
    /// not yet full of them.
    proof fn lemma_fresh_cell(&self, coords: Coord)
        requires
            self.wf(),
            in_bounds(coords.0 as int, coords.1 as int),
            self.position().cell(coords.0 as int, coords.1 as int) is None,
        ensures
            forall|k: int| 0 <= k < self.history().len() ==> self.history()[k] != coords,
            self.history().len() < 225,
    {
        let stones = stones_of(self.history());
        Board::lemma_moves_left(stones);
        assert forall|k: int| 0 <= k < self.history().len() implies self.history()[k] != coords by {
            assert(stones[k].1 == self.history()[k]);
        }
        self.position().lemma_legal_moves();
        assert(self.position().legal_moves().contains(coords));
    }

    /// How the game stands.
    pub fn check_end(&self) -> (end: Option<EndGame>)
        ensures
            end == outcome(self.position()),
    {
        check_end(&self.board)
    }
}

} // verus!

use crate::game::PlayerIndicator;
use vstd::prelude::*;
use vstd::string::StringExecFns;

verus! {

/// Number of rows and of columns of the board.
pub const BOARD_SIZE: usize = 15;

/// A position on the board: row first, column second.
pub type Coord = (usize, usize);

/// Why a move was refused.
#[derive(Debug, Clone, Copy, PartialEq, Eq, Structural)]
pub enum MoveError {
    /// The target cell already holds a stone.
    OccupiedCell,
    /// The row or the column lies outside the board.
    OutOfBounds,
}

impl MoveError {
    /// A sentence for the person who made the move.
    pub fn message(&self) -> (text: &'static str)
        ensures
            text@ == (match *self {
                MoveError::OccupiedCell => "Cell is already occupied."@,
                MoveError::OutOfBounds => "Coordinates out of bounds."@,
            }),
    {
        match self {
            MoveError::OccupiedCell => "Cell is already occupied.",
            MoveError::OutOfBounds => "Coordinates out of bounds.",
        }
    }
}

/// Whether row and column both lie on the board.
pub open spec fn in_bounds(row: int, col: int) -> bool {
    0 <= row < BOARD_SIZE && 0 <= col < BOARD_SIZE
}

/// The coordinate with row-major position `k`.
pub open spec fn coord_at(k: int) -> Coord {
    ((k / 15) as usize, (k % 15) as usize)
}

/// Every coordinate of the board in row-major order.
pub open spec fn all_coords() -> Seq<Coord> {
    Seq::new(225, |k: int| coord_at(k))
}

/// The grid of cells. A cell is `None` while it is empty and holds its owner
/// from the move that fills it.
#[derive(Debug)]
pub struct Board([[Option<PlayerIndicator>; 15]; 15]);

impl Board {
    /// The content of the cell in the given row and column.
    pub closed spec fn cell(&self, row: int, col: int) -> Option<PlayerIndicator> {
        self.0[row][col]
    }

    /// The predicate "this coordinate is empty".
    pub open spec fn free(&self) -> spec_fn(Coord) -> bool {
        |c: Coord| self.cell(c.0 as int, c.1 as int) is None
    }

    /// Every empty coordinate, in row-major order.
    pub open spec fn legal_moves(&self) -> Seq<Coord> {
        all_coords().filter(self.free())
    }

    /// Whether no empty cell is left.
    pub open spec fn full(&self) -> bool {
        forall|row: int, col: int| in_bounds(row, col) ==> (#[trigger] self.cell(row, col)) is Some
    }

    /// The board without any stone.
    pub closed spec fn empty() -> Board {
        Board(vstd::array::spec_array_fill_for_copy_type(vstd::array::spec_array_fill_for_copy_type(None)))
    }

    /// Every cell of the empty board is empty.
    pub proof fn lemma_empty()
        ensures
            forall|row: int, col: int| in_bounds(row, col) ==> (#[trigger] Board::empty().cell(row, col)) is None,
    {
        let row = vstd::array::spec_array_fill_for_copy_type::<Option<PlayerIndicator>, 15>(None);
        assert forall|r: int, c: int| in_bounds(r, c) implies (#[trigger] Board::empty().cell(r, c)) is None by {
            assert(Board::empty().0@[r] == row);
            assert(row@[c] is None);
        }
    }

    /// The board with one cell set to `player`.
    pub closed spec fn place(&self, player: PlayerIndicator, row: int, col: int) -> Board {
        Board(vstd::array::spec_array_update(self.0, row, vstd::array::spec_array_update(self.0[row], col, Some(player))))
    }

    /// What `place` does to each cell.
    pub proof fn lemma_place(&self, player: PlayerIndicator, row: int, col: int)
        requires
            in_bounds(row, col),
        ensures
            forall|r: int, c: int| in_bounds(r, c) ==> #[trigger] self.place(player, row, col).cell(r, c) == (if r == row && c == col {
                Some(player)
            } else {
                self.cell(r, c)
            }),
    {
    }

    /// Two boards with the same cells are the same board.
    pub proof fn lemma_same_cells(&self, other: Board)
        requires
            forall|r: int, c: int| in_bounds(r, c) ==> #[trigger] self.cell(r, c) == other.cell(r, c),
        ensures
            *self == other,
    {
        assert forall|r: int| 0 <= r < 15 implies self.0[r] == other.0[r] by {
            assert forall|c: int| 0 <= c < 15 implies self.0[r][c] == other.0[r][c] by {
                assert(self.cell(r, c) == other.cell(r, c));
            }
            assert(self.0[r] =~= other.0[r]);
        }
        assert(self.0 =~= other.0);
    }

    /// The empty board.
    pub fn new() -> (board: Board)
        ensures
            board == Board::empty(),
    {
        let empty: Option<PlayerIndicator> = None;
        let row: [Option<PlayerIndicator>; 15] = [empty; 15];
        Board([row; 15])
    }

    /// Number of columns.
    pub fn width(&self) -> (w: usize)
        ensures
            w == BOARD_SIZE,
    {
        15
    }

    /// Number of rows.
    pub fn height(&self) -> (h: usize)
        ensures
            h == BOARD_SIZE,
    {
        15
    }

    /// A walk over the empty coordinates of the board as it is now.
    pub fn possible_moves(&self) -> (moves: PossibleMoves<'_>)
        ensures
            moves.board() == *self,
            moves.remaining() == self.legal_moves(),
    {
        PossibleMoves::new(self)
    }

    /// Whether no empty cell is left.
    pub fn is_full(&self) -> (full: bool)
        ensures
            full == self.full(),
    {
        let mut i: usize = 0;
        while i < 15
            invariant
                i <= 15,
                forall|row: int, col: int| 0 <= row < i && 0 <= col < 15 ==> (#[trigger] self.cell(row, col)) is Some,
            decreases 15 - i,
        {
            let mut j: usize = 0;
            while j < 15
                invariant
                    i < 15,
                    j <= 15,
                    forall|row: int, col: int| 0 <= row < i && 0 <= col < 15 ==> (#[trigger] self.cell(row, col)) is Some,
                    forall|col: int| 0 <= col < j ==> (#[trigger] self.cell(i as int, col)) is Some,
                decreases 15 - j,
            {
                if self.0[i][j].is_none() {
                    assert(in_bounds(i as int, j as int) && self.cell(i as int, j as int) is None);
                    return false;
                }
                j += 1;
            }
            i += 1;
        }
        true
    }

    /// Reads one cell.
    pub fn get(&self, row: usize, col: usize) -> (c: Option<PlayerIndicator>)
        requires
            in_bounds(row as int, col as int),
        ensures
            c == self.cell(row as int, col as int),
    {
        self.0[row][col]
    }

    /// Puts a stone of `player` on `coords`. A coordinate outside the board
    /// and an occupied cell are refused, in that order of checking, and a
    /// refused move leaves the board as it was.
    pub fn make_move(&mut self, player: PlayerIndicator, coords: Coord) -> (r: Result<(), MoveError>)
        ensures
            !in_bounds(coords.0 as int, coords.1 as int) ==> r == Err::<(), MoveError>(MoveError::OutOfBounds),
            in_bounds(coords.0 as int, coords.1 as int) && old(self).cell(coords.0 as int, coords.1 as int) is Some
                ==> r == Err::<(), MoveError>(MoveError::OccupiedCell),
            in_bounds(coords.0 as int, coords.1 as int) && old(self).cell(coords.0 as int, coords.1 as int) is None
                ==> r is Ok,
            r is Err ==> *final(self) == *old(self),
            r is Ok ==> *final(self) == old(self).place(player, coords.0 as int, coords.1 as int),
            forall|row: int, col: int| in_bounds(row, col) && old(self).cell(row, col) is Some ==> #[trigger] final(self).cell(row, col) == old(self).cell(row, col),
    {
        if coords.0 >= 15 || coords.1 >= 15 {
            return Err(MoveError::OutOfBounds);
        }
        if self.0[coords.0][coords.1].is_some() {
            return Err(MoveError::OccupiedCell);
        }
        self.0[coords.0][coords.1] = Some(player);
        proof {
            let target = old(self).place(player, coords.0 as int, coords.1 as int);
            old(self).lemma_place(player, coords.0 as int, coords.1 as int);
            self.lemma_same_cells(target);
        }
        Ok(())
    }
}

impl Clone for Board {
    /// A board with the same cells, of its own.
    fn clone(&self) -> (copy: Board)
        ensures
            copy == *self,
    {
        Board(self.0)
    }
}

impl Default for Board {
    /// The empty board.
    fn default() -> (board: Board)
        ensures
            board == Board::empty(),
    {
        Board::new()
    }
}

/// The digit of base 16 for a number below 15, as a text.
pub open spec fn hex_digit(n: int) -> Seq<char> {
    if n == 0 {
        "0"@
    } else if n == 1 {
        "1"@
    } else if n == 2 {
        "2"@
    } else if n == 3 {
        "3"@
    } else if n == 4 {
        "4"@
    } else if n == 5 {
        "5"@
    } else if n == 6 {
        "6"@
    } else if n == 7 {
        "7"@
    } else if n == 8 {
        "8"@
    } else if n == 9 {
        "9"@
    } else if n == 10 {
        "A"@
    } else if n == 11 {
        "B"@
    } else if n == 12 {
        "C"@
    } else if n == 13 {
        "D"@
    } else {
        "E"@
    }
}

/// The mark of a cell in the picture of a board.
pub open spec fn mark_of(cell: Option<PlayerIndicator>) -> Seq<char> {
    match cell {
        Some(PlayerIndicator::Player1) => "1"@,
        Some(PlayerIndicator::Player2) => "2"@,
        None => "_"@,
    }
}

/// The top line of the picture up to column `upto`: a roof over each column.
pub open spec fn roof(upto: int) -> Seq<char>
    decreases upto,
{
    if upto <= 0 {
        Seq::empty()
    } else {
        roof(upto - 1) + " _"@
    }
}

/// The bottom line of the picture up to column `upto`: the number of each
/// column.
pub open spec fn column_numbers(upto: int) -> Seq<char>
    decreases upto,
{
    if upto <= 0 {
        Seq::empty()
    } else {
        column_numbers(upto - 1) + " "@ + hex_digit(upto - 1)
    }
}

impl Board {
    /// The marks of a row up to column `upto`, each with a bar behind it.
    pub open spec fn marks(&self, row: int, upto: int) -> Seq<char>
        decreases upto,
    {
        if upto <= 0 {
            Seq::empty()
        } else {
            self.marks(row, upto - 1) + mark_of(self.cell(row, upto - 1)) + "|"@
        }
    }

    /// The lines of the picture for the rows before `upto`: the number of the
    /// row, a bar, and the marks of the row.
    pub open spec fn row_lines(&self, upto: int) -> Seq<char>
        decreases upto,
    {
        if upto <= 0 {
            Seq::empty()
        } else {
            self.row_lines(upto - 1) + hex_digit(upto - 1) + " |"@ + self.marks(upto - 1, 15) + "\n"@
        }
    }

    /// The picture of the board: a roof, a line for each row, and the numbers
    /// of the columns.
    pub open spec fn picture(&self) -> Seq<char> {
        "  "@ + roof(15) + "\n"@ + self.row_lines(15) + "  "@ + column_numbers(15) + "\n"@
    }

    /// The picture of the board as a text.
    pub fn render(&self) -> (text: String)
        ensures
            text@ == self.picture(),
    {
        let mut text = String::from_str("  ");
        let mut j: usize = 0;
        while j < 15
            invariant
                j <= 15,
                text@ == "  "@ + roof(j as int),
            decreases 15 - j,
        {
            text.append(" _");
            j += 1;
            assert(text@ =~= "  "@ + roof(j as int));
        }
        text.append("\n");
        let ghost top = text@;
        assert(top =~= "  "@ + roof(15) + "\n"@);
        assert(self.row_lines(0) =~= Seq::<char>::empty());
        let mut i: usize = 0;
        while i < 15
            invariant
                i <= 15,
                text@ == top + self.row_lines(i as int),
            decreases 15 - i,
        {
            let ghost before = text@;
            text.append(digit_text(i));
            text.append(" |");
            assert(self.marks(i as int, 0) =~= Seq::<char>::empty());
            let mut j: usize = 0;
            while j < 15
                invariant
                    i < 15,
                    j <= 15,
                    text@ == before + hex_digit(i as int) + " |"@ + self.marks(i as int, j as int),
                decreases 15 - j,
            {
                let mark = match self.0[i][j] {
                    Some(PlayerIndicator::Player1) => "1",
                    Some(PlayerIndicator::Player2) => "2",
                    None => "_",
                };
                text.append(mark);
                text.append("|");
                j += 1;
                assert(text@ =~= before + hex_digit(i as int) + " |"@ + self.marks(i as int, j as int));
            }
            text.append("\n");
            i += 1;
            assert(text@ =~= top + self.row_lines(i as int));
        }
        let ghost rows = text@;
        text.append("  ");
        assert(column_numbers(0) =~= Seq::<char>::empty());
        let mut j: usize = 0;
        while j < 15
            invariant
                j <= 15,
                text@ == rows + "  "@ + column_numbers(j as int),
            decreases 15 - j,
        {
            text.append(" ");
            text.append(digit_text(j));
            j += 1;
            assert(text@ =~= rows + "  "@ + column_numbers(j as int));
        }
        text.append("\n");
        assert(text@ =~= self.picture());
        text
    }
}

/// The digit of base 16 for a number below 15.
fn digit_text(n: usize) -> (text: &'static str)
    requires
        n < 15,
    ensures
        text@ == hex_digit(n as int),
{
    if n == 0 {
        "0"
    } else if n == 1 {
        "1"
    } else if n == 2 {
        "2"
    } else if n == 3 {
        "3"
    } else if n == 4 {
        "4"
    } else if n == 5 {
        "5"
    } else if n == 6 {
        "6"
    } else if n == 7 {
        "7"
    } else if n == 8 {
        "8"
    } else if n == 9 {
        "9"
    } else if n == 10 {
        "A"
    } else if n == 11 {
        "B"
    } else if n == 12 {
        "C"
    } else if n == 13 {
        "D"
    } else {
        "E"
    }
}

/// The empty coordinates that a walk in row-major order has yet to reach.
pub struct PossibleMoves<'a> {
    board: &'a Board,
    coord: Coord,
}

impl<'a> PossibleMoves<'a> {
    #[verifier::type_invariant]
    spec fn cursor_on_board(&self) -> bool {
        self.coord.0 <= 15 && self.coord.1 < 15 && (self.coord.0 == 15 ==> self.coord.1 == 0)
    }

    /// The board that is walked.
    pub closed spec fn board(&self) -> Board {
        *self.board
    }

    /// Row-major position of the next coordinate to look at.
    pub closed spec fn position(&self) -> int {
        self.coord.0 * 15 + self.coord.1
    }

    /// The moves that are still to come, in the order in which `next` hands
    /// them out.
    pub open spec fn remaining(&self) -> Seq<Coord> {
        all_coords().skip(self.position()).filter(self.board().free())
    }

    /// A walk that starts in the top left corner.
    pub fn new(board: &'a Board) -> (moves: PossibleMoves<'a>)
        ensures
            moves.board() == *board,
            moves.remaining() == board.legal_moves(),
    {
        let moves = PossibleMoves { board, coord: (0, 0) };
        assert(all_coords().skip(0) =~= all_coords());
        moves
    }

    /// The next empty coordinate, or `None` once the walk is over. The board
    /// is the one that `new` was given: the walk does not see later moves.
    pub fn next(&mut self) -> (item: Option<Coord>)
        ensures
            final(self).board() == old(self).board(),
            old(self).remaining().len() == 0 ==> item is None && final(self).remaining() == old(self).remaining(),
            old(self).remaining().len() > 0 ==> item == Some(old(self).remaining()[0])
                && final(self).remaining() == old(self).remaining().drop_first(),
    {
        proof {
            use_type_invariant(&*self);
        }
        let (mut i, mut j) = self.coord;
        if i >= 15 {
            assert(all_coords().skip(self.position()) =~= Seq::<Coord>::empty());
            return None;
        }
        while self.board.get(i, j).is_some()
            invariant
                i < 15,
                j < 15,
                self.position() <= i * 15 + j,
                self.remaining() == all_coords().skip(i * 15 + j).filter(self.board().free()),
                *self == *old(self),
            decreases 225 - (i * 15 + j),
        {
            proof {
                lemma_skip_step(i * 15 + j, self.board().free());
            }
            if j < 14 {
                j += 1;
            } else if i < 14 {
                i += 1;
                j = 0;
            } else {
                assert(all_coords().skip(225) =~= Seq::<Coord>::empty());
                return None;
            }
        }
        proof {
            lemma_skip_step(i * 15 + j, self.board().free());
        }
        self.coord = if j < 14 {
            (i, j + 1)
        } else {
            (i + 1, 0)
        };
        Some((i, j))
    }
}

/// Row-major position of a coordinate.
pub open spec fn position_of(c: Coord) -> int {
    c.0 * 15 + c.1
}

impl Board {
    /// The empty coordinates from position `k` on, in row-major order.
    pub open spec fn moves_from(&self, k: int) -> Seq<Coord> {
        all_coords().skip(k).filter(self.free())
    }

    /// What `moves_from` holds: exactly the empty coordinates at position
    /// `k` or later, each once, in ascending position.
    pub proof fn lemma_moves_from(&self, k: int)
        requires
            0 <= k <= 225,
        ensures
            self.moves_from(k).len() <= 225 - k,
            forall|i: int| 0 <= i < self.moves_from(k).len() ==> {
                let c = #[trigger] self.moves_from(k)[i];
                in_bounds(c.0 as int, c.1 as int) && position_of(c) >= k && self.cell(c.0 as int, c.1 as int) is None
            },
            forall|i: int, j: int| 0 <= i < j < self.moves_from(k).len() ==> position_of(#[trigger] self.moves_from(k)[i]) < position_of(#[trigger] self.moves_from(k)[j]),
            forall|c: Coord| in_bounds(c.0 as int, c.1 as int) && position_of(c) >= k && self.cell(c.0 as int, c.1 as int) is None
                ==> #[trigger] self.moves_from(k).contains(c),
        decreases 225 - k,
    {
        if k == 225 {
            assert(all_coords().skip(225) =~= Seq::<Coord>::empty());
            assert(self.moves_from(k) =~= Seq::<Coord>::empty()) by {
                all_coords().skip(225).lemma_filter_len(self.free());
            }
        } else {
            self.lemma_moves_from(k + 1);
            lemma_skip_step(k, self.free());
            let rest = self.moves_from(k + 1);
            let here = self.moves_from(k);
            let head = coord_at(k);
            assert(position_of(head) == k && in_bounds(head.0 as int, head.1 as int));
            if (self.free())(head) {
                assert(here =~= seq![head] + rest);
                assert forall|i: int| 0 <= i < here.len() implies ({
                    let c = #[trigger] here[i];
                    in_bounds(c.0 as int, c.1 as int) && position_of(c) >= k && self.cell(c.0 as int, c.1 as int) is None
                }) by {
                    if i > 0 {
                        assert(here[i] == rest[i - 1]);
                    }
                }
                assert forall|i: int, j: int| 0 <= i < j < here.len() implies position_of(#[trigger] here[i]) < position_of(#[trigger] here[j]) by {
                    assert(here[j] == rest[j - 1]);
                    if i > 0 {
                        assert(here[i] == rest[i - 1]);
                    }
                }
                assert forall|c: Coord| in_bounds(c.0 as int, c.1 as int) && position_of(c) >= k && self.cell(c.0 as int, c.1 as int) is None
                    implies #[trigger] here.contains(c) by {
                    if position_of(c) == k {
                        assert(c == head);
                        assert(here[0] == c);
                    } else {
                        assert(rest.contains(c));
                        let j = choose|j: int| 0 <= j < rest.len() && rest[j] == c;
                        assert(here[j + 1] == c);
                    }
                }
            } else {
                assert(here =~= rest);
                assert forall|c: Coord| in_bounds(c.0 as int, c.1 as int) && position_of(c) >= k && self.cell(c.0 as int, c.1 as int) is None
                    implies #[trigger] here.contains(c) by {
                    if position_of(c) == k {
                        assert(c == head);
                    } else {
                        assert(rest.contains(c));
                    }
                }
            }
        }
    }

    /// The legal moves are exactly the empty coordinates of the board, each
    /// once.
    pub proof fn lemma_legal_moves(&self)
        ensures
            forall|c: Coord| #[trigger] self.legal_moves().contains(c) <==> in_bounds(c.0 as int, c.1 as int) && self.cell(c.0 as int, c.1 as int) is None,
            self.legal_moves().no_duplicates(),
            self.legal_moves().len() <= 225,
            self.full() <==> self.legal_moves().len() == 0,
    {
        self.lemma_moves_from(0);
        assert(all_coords().skip(0) =~= all_coords());
        let moves = self.legal_moves();
        assert(moves == self.moves_from(0));
        assert forall|c: Coord| #[trigger] moves.contains(c) implies in_bounds(c.0 as int, c.1 as int) && self.cell(c.0 as int, c.1 as int) is None by {
            let i = choose|i: int| 0 <= i < moves.len() && moves[i] == c;
            assert(moves[i] == c);
        }
        assert forall|i: int, j: int| 0 <= i < moves.len() && 0 <= j < moves.len() && i != j implies moves[i] != moves[j] by {
            if i < j {
                assert(position_of(moves[i]) < position_of(moves[j]));
            } else {
                assert(position_of(moves[j]) < position_of(moves[i]));
            }
        }
        if self.full() {
            if moves.len() > 0 {
                let c = moves[0];
                assert(self.cell(c.0 as int, c.1 as int) is None);
            }
        } else {
            let (row, col) = choose|row: int, col: int| in_bounds(row, col) && !(#[trigger] self.cell(row, col) is Some);
            let c: Coord = (row as usize, col as usize);
            assert(moves.contains(c));
        }
    }
}

impl Board {
    /// A stone on an empty cell takes one coordinate from the moves from
    /// position `k` on if the cell lies there, and none otherwise.
    proof fn lemma_place_moves_from(&self, player: PlayerIndicator, row: int, col: int, k: int)
        requires
            in_bounds(row, col),
            self.cell(row, col) is None,
            0 <= k <= 225,
        ensures
            k > row * 15 + col ==> self.place(player, row, col).moves_from(k) == self.moves_from(k),
            k <= row * 15 + col ==> self.place(player, row, col).moves_from(k).len() + 1 == self.moves_from(k).len(),
        decreases 225 - k,
    {
        let after = self.place(player, row, col);
        if k == 225 {
            assert(all_coords().skip(225) =~= Seq::<Coord>::empty());
        } else {
            self.lemma_place_moves_from(player, row, col, k + 1);
            self.lemma_place(player, row, col);
            lemma_skip_step(k, self.free());
            lemma_skip_step(k, after.free());
            let head = coord_at(k);
            assert(in_bounds(head.0 as int, head.1 as int));
            assert(after.cell(head.0 as int, head.1 as int) == (if head.0 == row && head.1 == col {
                Some(player)
            } else {
                self.cell(head.0 as int, head.1 as int)
            }));
        }
    }

    /// The board reached from the empty one by the given stones, put down in
    /// order.
    pub open spec fn after(stones: Seq<(PlayerIndicator, Coord)>) -> Board
        decreases stones.len(),
    {
        if stones.len() == 0 {
            Board::empty()
        } else {
            Board::after(stones.drop_last()).place(stones.last().0, stones.last().1.0 as int, stones.last().1.1 as int)
        }
    }

    /// The empty board offers every coordinate.
    pub proof fn lemma_empty_board_moves()
        ensures
            Board::empty().legal_moves() == all_coords(),
            Board::empty().legal_moves().len() == 225,
    {
        Board::lemma_empty();
        let board = Board::empty();
        assert forall|k: int| 0 <= k <= 225 implies #[trigger] board.moves_from(k) == all_coords().skip(k) by {
            board.lemma_all_free_from(k);
        }
        assert(all_coords().skip(0) =~= all_coords());
        assert(board.moves_from(0) == all_coords().skip(0));
    }

    proof fn lemma_all_free_from(&self, k: int)
        requires
            0 <= k <= 225,
            forall|row: int, col: int| in_bounds(row, col) ==> (#[trigger] self.cell(row, col)) is None,
        ensures
            self.moves_from(k) == all_coords().skip(k),
        decreases 225 - k,
    {
        if k == 225 {
            assert(all_coords().skip(225) =~= Seq::<Coord>::empty());
            all_coords().skip(225).lemma_filter_len(self.free());
            assert(self.moves_from(k) =~= all_coords().skip(k));
        } else {
            self.lemma_all_free_from(k + 1);
            lemma_skip_step(k, self.free());
            let head = coord_at(k);
            assert(in_bounds(head.0 as int, head.1 as int));
            assert(self.cell(head.0 as int, head.1 as int) is None);
            assert(all_coords().skip(k) =~= seq![head] + all_coords().skip(k + 1));
        }
    }

    /// Law of the legal moves: every stone put on an empty cell takes exactly
    /// its own coordinate from them. After the stones the occupied cells are
    /// those played, the board offers 225 coordinates less one for each stone,
    /// and none of the coordinates played is among them.
    pub proof fn lemma_moves_left(stones: Seq<(PlayerIndicator, Coord)>)
        requires
            forall|k: int| 0 <= k < stones.len() ==> in_bounds((#[trigger] stones[k]).1.0 as int, stones[k].1.1 as int),
            forall|i: int, j: int| 0 <= i < j < stones.len() ==> (#[trigger] stones[i]).1 != (#[trigger] stones[j]).1,
        ensures
            Board::after(stones).legal_moves().len() == 225 - stones.len(),
            forall|k: int| 0 <= k < stones.len() ==> !Board::after(stones).legal_moves().contains((#[trigger] stones[k]).1),
            forall|k: int| 0 <= k < stones.len() ==> Board::after(stones).cell((#[trigger] stones[k]).1.0 as int, stones[k].1.1 as int) == Some(stones[k].0),
            forall|row: int, col: int| in_bounds(row, col) && (#[trigger] Board::after(stones).cell(row, col)) is Some
                ==> exists|k: int| 0 <= k < stones.len() && (#[trigger] stones[k]).1 == (row as usize, col as usize),
        decreases stones.len(),
    {
        let board = Board::after(stones);
        if stones.len() == 0 {
            Board::lemma_empty();
            Board::lemma_empty_board_moves();
        } else {
            let before = stones.drop_last();
            let (player, target) = stones.last();
            let (row, col) = (target.0 as int, target.1 as int);
            let prior = Board::after(before);
            assert forall|k: int| 0 <= k < before.len() implies in_bounds((#[trigger] before[k]).1.0 as int, before[k].1.1 as int) by {
                assert(before[k] == stones[k]);
            }
            assert forall|i: int, j: int| 0 <= i < j < before.len() implies (#[trigger] before[i]).1 != (#[trigger] before[j]).1 by {
                assert(before[i] == stones[i] && before[j] == stones[j]);
            }
            Board::lemma_moves_left(before);
            assert(prior.cell(row, col) is None) by {
                if prior.cell(row, col) is Some {
                    let k = choose|k: int| 0 <= k < before.len() && (#[trigger] before[k]).1 == (row as usize, col as usize);
                    assert(before[k] == stones[k]);
                    assert(stones[k].1 != stones[stones.len() - 1].1);
                }
            }
            prior.lemma_place(player, row, col);
            prior.lemma_place_moves_from(player, row, col, 0);
            assert(all_coords().skip(0) =~= all_coords());
            board.lemma_legal_moves();
            assert forall|k: int| 0 <= k < stones.len() implies board.cell((#[trigger] stones[k]).1.0 as int, stones[k].1.1 as int) == Some(stones[k].0) by {
                if k < before.len() {
                    assert(before[k] == stones[k]);
                    assert(stones[k].1 != stones[stones.len() - 1].1);
                }
            }
            assert forall|r: int, c: int| in_bounds(r, c) && (#[trigger] board.cell(r, c)) is Some
                implies exists|k: int| 0 <= k < stones.len() && (#[trigger] stones[k]).1 == (r as usize, c as usize) by {
                if r == row && c == col {
                    assert(stones[stones.len() - 1].1 == (r as usize, c as usize));
                } else {
                    assert(prior.cell(r, c) is Some);
                    let k = choose|k: int| 0 <= k < before.len() && (#[trigger] before[k]).1 == (r as usize, c as usize);
                    assert(before[k] == stones[k]);
                }
            }
        }
    }
}

/// Filtering the coordinates from position `k` on looks at `k` first.
proof fn lemma_skip_step(k: int, keep: spec_fn(Coord) -> bool)
    requires
        0 <= k < 225,
    ensures
        all_coords().skip(k).filter(keep) == (if keep(coord_at(k)) {
            seq![coord_at(k)]
        } else {
            Seq::<Coord>::empty()
        }) + all_coords().skip(k + 1).filter(keep),
{
    assert(all_coords().skip(k) =~= seq![coord_at(k)] + all_coords().skip(k + 1));
    all_coords().skip(k + 1).lemma_filter_prepend(coord_at(k), keep);
}

} // verus!

use crate::board::{in_bounds, Board, Coord};
use crate::game::{five_from, is_step, owns, PlayerIndicator, VICTORY_STREAK};
use vstd::prelude::*;

verus! {

/// The six families of lines. A row and a column are scanned from their first
/// cell. A diagonal is scanned from the cell on the left or the right edge
/// after which the family is named: the two "left" families start in column 0,
/// the two "right" families in column 14.
#[derive(Debug, Clone, Copy, PartialEq, Eq, Structural)]
pub enum Direction {
    Horizontal,
    Vertical,
    BottomLeftDiagonal,
    TopLeftDiagonal,
    BottomRightDiagonal,
    TopRightDiagonal,
}

/// One cell of a line: where it is and what it holds.
pub type LineCell = (Coord, Option<PlayerIndicator>);

impl Direction {
    /// Number of cells of the line with index `axis`; an index above 14 names
    /// no line, which is a line without cells.
    pub open spec fn line_len(self, axis: int) -> int {
        if axis < 0 || axis > 14 {
            0
        } else {
            match self {
                Direction::Horizontal | Direction::Vertical => 15,
                Direction::BottomLeftDiagonal | Direction::TopLeftDiagonal => axis + 1,
                Direction::TopRightDiagonal | Direction::BottomRightDiagonal => 15 - axis,
            }
        }
    }

    /// Row and column of cell `k` of the line with index `axis`.
    pub open spec fn line_cell(self, axis: int, k: int) -> (int, int) {
        match self {
            Direction::Horizontal => (axis, k),
            Direction::Vertical => (k, axis),
            Direction::BottomLeftDiagonal => (14 - axis + k, k),
            Direction::TopLeftDiagonal => (axis - k, k),
            Direction::TopRightDiagonal => (axis + k, 14 - k),
            Direction::BottomRightDiagonal => (14 - axis - k, 14 - k),
        }
    }

    /// The coordinate of cell `k` of the line with index `axis`.
    pub open spec fn line_coord(self, axis: int, k: int) -> Coord {
        (self.line_cell(axis, k).0 as usize, self.line_cell(axis, k).1 as usize)
    }
}

/// The cells of one line of a board, first to last.
pub open spec fn line_cells(board: Board, direction: Direction, axis: int) -> Seq<LineCell> {
    Seq::new(
        direction.line_len(axis) as nat,
        |k: int| (direction.line_coord(axis, k), board.cell(direction.line_cell(axis, k).0, direction.line_cell(axis, k).1)),
    )
}

/// Whether the cells from `start` up to `end` are a streak of `player`: a
/// run of cells of `player` that cannot be extended on either side.
pub open spec fn is_streak(cells: Seq<LineCell>, player: PlayerIndicator, start: int, end: int) -> bool {
    &&& 0 <= start < end <= cells.len()
    &&& forall|k: int| start <= k < end ==> (#[trigger] cells[k]).1 == Some(player)
    &&& (start == 0 || cells[start - 1].1 != Some(player))
    &&& (end == cells.len() || cells[end].1 != Some(player))
}

/// The coordinates of the cells from `start` up to `end`.
pub open spec fn coords_of(cells: Seq<LineCell>, start: int, end: int) -> Seq<Coord> {
    Seq::new((end - start) as nat, |k: int| cells[start + k].0)
}

/// Number of empty cells in a row directly before position `start`.
pub open spec fn room_before(cells: Seq<LineCell>, start: int) -> int
    decreases start,
{
    if 0 < start <= cells.len() && cells[start - 1].1 is None {
        1 + room_before(cells, start - 1)
    } else {
        0
    }
}

/// Number of empty cells in a row from position `end` on.
pub open spec fn room_after(cells: Seq<LineCell>, end: int) -> int
    decreases cells.len() - end,
{
    if 0 <= end < cells.len() && cells[end].1 is None {
        1 + room_after(cells, end + 1)
    } else {
        0
    }
}

/// Whether the cells from `start` up to `end` are a streak of `player` that
/// has room: with the empty cells that adjoin it on both sides it spans at
/// least five cells, so it can still grow into a winning run, or is one.
pub open spec fn is_streak_with_room(cells: Seq<LineCell>, player: PlayerIndicator, start: int, end: int) -> bool {
    &&& is_streak(cells, player, start, end)
    &&& room_before(cells, start) + (end - start) + room_after(cells, end) >= VICTORY_STREAK
}

/// The streaks of `player` among the cells, as coordinate sequences.
pub open spec fn streak_set(cells: Seq<LineCell>, player: PlayerIndicator) -> Set<Seq<Coord>> {
    Set::new(|run: Seq<Coord>| exists|start: int, end: int| #[trigger] is_streak(cells, player, start, end) && run == coords_of(cells, start, end))
}

/// The streaks of `player` with room among the cells, as coordinate
/// sequences.
pub open spec fn roomy_streak_set(cells: Seq<LineCell>, player: PlayerIndicator) -> Set<Seq<Coord>> {
    Set::new(|run: Seq<Coord>| exists|start: int, end: int| #[trigger] is_streak_with_room(cells, player, start, end) && run == coords_of(cells, start, end))
}

/// Whether `found` lists exactly the members of `wanted`, each once.
pub open spec fn lists_exactly(found: Seq<Vec<Coord>>, wanted: Set<Seq<Coord>>) -> bool {
    &&& forall|i: int| 0 <= i < found.len() ==> wanted.contains(#[trigger] found[i]@)
    &&& forall|run: Seq<Coord>| wanted.contains(run) ==> exists|i: int| 0 <= i < found.len() && #[trigger] found[i]@ == run
    &&& forall|i: int, j: int| 0 <= i < j < found.len() ==> #[trigger] found[i]@ != #[trigger] found[j]@
}

/// Whether `run` begins with the coordinate of cell `at`.
pub open spec fn begins_at(run: Seq<Coord>, cells: Seq<LineCell>, at: int) -> bool {
    0 <= at < cells.len() && run.len() > 0 && cells[at].0 == run[0]
}

/// The position of the cell with which `run` begins.
pub open spec fn start_of(run: Seq<Coord>, cells: Seq<LineCell>) -> int {
    choose|at: int| begins_at(run, cells, at)
}

/// Whether the runs in `found` stand in the order in which a walk along the
/// cells meets them: each begins at a cell, and before the next one does.
pub open spec fn in_walk_order(found: Seq<Vec<Coord>>, cells: Seq<LineCell>) -> bool {
    &&& forall|i: int| 0 <= i < found.len() ==> begins_at(#[trigger] found[i]@, cells, start_of(found[i]@, cells))
    &&& forall|i: int, j: int| 0 <= i < j < found.len() ==> start_of(#[trigger] found[i]@, cells) < start_of(#[trigger] found[j]@, cells)
}

/// Every cell of every line lies on the board, and no two cells of a line are
/// the same.
pub proof fn lemma_line_on_board(direction: Direction, axis: int)
    ensures
        forall|k: int| 0 <= k < direction.line_len(axis) ==> in_bounds((#[trigger] direction.line_cell(axis, k)).0, direction.line_cell(axis, k).1),
        forall|j: int, k: int| 0 <= j < k < direction.line_len(axis) ==> #[trigger] direction.line_coord(axis, j) != #[trigger] direction.line_coord(axis, k),
{
}

/// Whether a cell holds a stone of `player`.
fn owned_by(cell: Option<PlayerIndicator>, player: PlayerIndicator) -> (owned: bool)
    ensures
        owned == (cell == Some(player)),
{
    match cell {
        Some(owner) => owner == player,
        None => false,
    }
}

/// Whether no two of the cells share a coordinate.
pub open spec fn distinct_coords(cells: Seq<LineCell>) -> bool {
    forall|j: int, k: int| 0 <= j < k < cells.len() ==> (#[trigger] cells[j]).0 != (#[trigger] cells[k]).0
}

/// What a scan has collected before position `limit`: `found[i]` is the
/// streak with the bounds `bounds[i]`, and every streak that ends before
/// `limit` is among them.
spec fn collected(
    found: Seq<Vec<Coord>>,
    bounds: Seq<(int, int)>,
    cells: Seq<LineCell>,
    player: PlayerIndicator,
    limit: int,
    roomy: bool,
) -> bool {
    &&& found.len() == bounds.len()
    &&& forall|i: int| 0 <= i < bounds.len() ==> {
        &&& is_streak(cells, player, (#[trigger] bounds[i]).0, bounds[i].1)
        &&& roomy ==> is_streak_with_room(cells, player, bounds[i].0, bounds[i].1)
        &&& bounds[i].1 < limit
        &&& found[i]@ == coords_of(cells, bounds[i].0, bounds[i].1)
    }
    &&& forall|i: int, j: int| 0 <= i < j < bounds.len() ==> (#[trigger] bounds[i]).0 < (#[trigger] bounds[j]).0
    &&& forall|start: int, end: int| #[trigger] is_streak(cells, player, start, end) && end < limit && (roomy ==> is_streak_with_room(cells, player, start, end))
        ==> exists|i: int| 0 <= i < bounds.len() && #[trigger] bounds[i] == (start, end)
}

/// One step of a scan: the cells from `start` up to `seen` are of `player`
/// and the run ends at `seen`. If the run is not empty (and has room, where
/// only such runs are wanted) it joins what was collected; either way the
/// scan has then collected everything that ends at `seen` or before.
proof fn lemma_run_closed(
    found: Seq<Vec<Coord>>,
    bounds: Seq<(int, int)>,
    cells: Seq<LineCell>,
    player: PlayerIndicator,
    start: int,
    seen: int,
    roomy: bool,
    run: Vec<Coord>,
)
    requires
        collected(found, bounds, cells, player, start, roomy),
        0 <= start <= seen <= cells.len(),
        forall|k: int| start <= k < seen ==> (#[trigger] cells[k]).1 == Some(player),
        start == 0 || cells[start - 1].1 != Some(player),
        seen == cells.len() || cells[seen].1 != Some(player),
        run@ == coords_of(cells, start, seen),
    ensures
        start < seen ==> is_streak(cells, player, start, seen),
        start < seen && (roomy ==> is_streak_with_room(cells, player, start, seen))
            ==> collected(found.push(run), bounds.push((start, seen)), cells, player, seen + 1, roomy),
        !(start < seen && (roomy ==> is_streak_with_room(cells, player, start, seen)))
            ==> collected(found, bounds, cells, player, seen + 1, roomy),
{
    let keep = start < seen && (roomy ==> is_streak_with_room(cells, player, start, seen));
    let new_found = if keep { found.push(run) } else { found };
    let new_bounds = if keep { bounds.push((start, seen)) } else { bounds };
    assert forall|i: int| 0 <= i < new_bounds.len() implies {
        &&& is_streak(cells, player, (#[trigger] new_bounds[i]).0, new_bounds[i].1)
        &&& roomy ==> is_streak_with_room(cells, player, new_bounds[i].0, new_bounds[i].1)
        &&& new_bounds[i].1 < seen + 1
        &&& new_found[i]@ == coords_of(cells, new_bounds[i].0, new_bounds[i].1)
    } by {
        if i < bounds.len() {
            assert(new_bounds[i] == bounds[i]);
            assert(new_found[i] == found[i]);
        }
    }
    assert forall|i: int, j: int| 0 <= i < j < new_bounds.len() implies (#[trigger] new_bounds[i]).0 < (#[trigger] new_bounds[j]).0 by {
        assert(new_bounds[i] == bounds[i]);
        if j < bounds.len() {
            assert(new_bounds[j] == bounds[j]);
        } else {
            assert(is_streak(cells, player, bounds[i].0, bounds[i].1));
            assert(bounds[i].1 < start);
        }
    }
    assert forall|a: int, b: int| #[trigger] is_streak(cells, player, a, b) && b < seen + 1 && (roomy ==> is_streak_with_room(cells, player, a, b))
        implies exists|i: int| 0 <= i < new_bounds.len() && #[trigger] new_bounds[i] == (a, b) by {
        if b < start {
            let i = choose|i: int| 0 <= i < bounds.len() && #[trigger] bounds[i] == (a, b);
            assert(new_bounds[i] == (a, b));
        } else {
            if b < seen {
                assert(cells[b].1 == Some(player));
            }
            assert(b == seen);
            if a < start {
                assert(cells[start - 1].1 == Some(player));
            }
            if a > start {
                assert(cells[a - 1].1 == Some(player));
            }
            assert(a == start);
            assert(keep);
            assert(new_bounds[bounds.len() as int] == (a, b));
        }
    }
}

/// The room on either side of a position is no more than the cells there.
proof fn lemma_room_bounds(cells: Seq<LineCell>, at: int)
    requires
        0 <= at <= cells.len(),
    ensures
        0 <= room_before(cells, at) <= at,
        0 <= room_after(cells, at) <= cells.len() - at,
{
    lemma_room_before_bound(cells, at);
    lemma_room_after_bound(cells, at);
}

proof fn lemma_room_before_bound(cells: Seq<LineCell>, at: int)
    requires
        0 <= at <= cells.len(),
    ensures
        0 <= room_before(cells, at) <= at,
    decreases at,
{
    if 0 < at && cells[at - 1].1 is None {
        lemma_room_before_bound(cells, at - 1);
    }
}

proof fn lemma_room_after_bound(cells: Seq<LineCell>, at: int)
    requires
        0 <= at <= cells.len(),
    ensures
        0 <= room_after(cells, at) <= cells.len() - at,
    decreases cells.len() - at,
{
    if at < cells.len() && cells[at].1 is None {
        lemma_room_after_bound(cells, at + 1);
    }
}

/// The room after a position is the room at the start of the cells from
/// that position on.
proof fn lemma_room_after_skip(cells: Seq<LineCell>, at: int, ahead: int)
    requires
        0 <= at <= cells.len(),
        0 <= ahead <= cells.len() - at,
    ensures
        room_after(cells, at + ahead) == room_after(cells.skip(at), ahead),
    decreases cells.len() - at - ahead,
{
    let rest = cells.skip(at);
    if ahead < rest.len() {
        assert(rest[ahead] == cells[at + ahead]);
        if rest[ahead].1 is None {
            lemma_room_after_skip(cells, at, ahead + 1);
        }
    }
}

/// A finished scan has collected exactly the streaks.
proof fn lemma_collected_all(
    found: Seq<Vec<Coord>>,
    bounds: Seq<(int, int)>,
    cells: Seq<LineCell>,
    player: PlayerIndicator,
    roomy: bool,
)
    requires
        collected(found, bounds, cells, player, cells.len() as int + 1, roomy),
        distinct_coords(cells),
    ensures
        !roomy ==> lists_exactly(found, streak_set(cells, player)),
        roomy ==> lists_exactly(found, roomy_streak_set(cells, player)),
        in_walk_order(found, cells),
{
    assert forall|i: int| 0 <= i < found.len() implies begins_at(#[trigger] found[i]@, cells, start_of(found[i]@, cells)) && start_of(
        found[i]@,
        cells,
    ) == bounds[i].0 by {
        let at = bounds[i].0;
        assert(is_streak(cells, player, at, bounds[i].1));
        assert(found[i]@[0] == cells[at].0);
        assert(begins_at(found[i]@, cells, at));
    }
    let wanted = if roomy {
        roomy_streak_set(cells, player)
    } else {
        streak_set(cells, player)
    };
    assert forall|i: int| 0 <= i < found.len() implies wanted.contains(#[trigger] found[i]@) by {
        assert(is_streak(cells, player, bounds[i].0, bounds[i].1));
    }
    assert forall|run: Seq<Coord>| wanted.contains(run) implies exists|i: int| 0 <= i < found.len() && #[trigger] found[i]@ == run by {
        if roomy {
            let (start, end) = choose|start: int, end: int| #[trigger] is_streak_with_room(cells, player, start, end) && run == coords_of(cells, start, end);
            assert(is_streak(cells, player, start, end));
            let i = choose|i: int| 0 <= i < bounds.len() && #[trigger] bounds[i] == (start, end);
            assert(found[i]@ == run);
        } else {
            let (start, end) = choose|start: int, end: int| #[trigger] is_streak(cells, player, start, end) && run == coords_of(cells, start, end);
            let i = choose|i: int| 0 <= i < bounds.len() && #[trigger] bounds[i] == (start, end);
            assert(found[i]@ == run);
        }
    }
    assert forall|i: int, j: int| 0 <= i < j < found.len() implies #[trigger] found[i]@ != #[trigger] found[j]@ by {
        assert(bounds[i].0 < bounds[j].0);
        assert(is_streak(cells, player, bounds[i].0, bounds[i].1));
        assert(is_streak(cells, player, bounds[j].0, bounds[j].1));
        assert(found[i]@[0] == cells[bounds[i].0].0);
        assert(found[j]@[0] == cells[bounds[j].0].0);
    }
}

/// A walk along one line of a board.
#[derive(Clone, Copy)]
pub struct Axis<'a> {
    board: &'a Board,
    direction: Direction,
    axis_index: usize,
    cell_index: usize,
}

impl<'a> Axis<'a> {
    /// The board that the line lies on.
    pub closed spec fn board(&self) -> Board {
        *self.board
    }

    /// The family of the line.
    pub closed spec fn direction(&self) -> Direction {
        self.direction
    }

    /// The index of the line in its family.
    pub closed spec fn axis_index(&self) -> int {
        self.axis_index as int
    }

    /// Number of cells that the walk has passed.
    pub closed spec fn position(&self) -> int {
        self.cell_index as int
    }

    /// The cells of the whole line.
    pub open spec fn line(&self) -> Seq<LineCell> {
        line_cells(self.board(), self.direction(), self.axis_index())
    }

    /// The cells that the walk has yet to reach.
    pub open spec fn remaining(&self) -> Seq<LineCell> {
        if self.position() <= self.line().len() {
            self.line().skip(self.position())
        } else {
            Seq::empty()
        }
    }

    /// A walk from the first cell of a line.
    pub fn new(board: &'a Board, direction: Direction, axis_index: usize) -> (axis: Axis<'a>)
        ensures
            axis.board() == *board,
            axis.direction() == direction,
            axis.axis_index() == axis_index,
            axis.position() == 0,
            axis.remaining() == line_cells(*board, direction, axis_index as int),
    {
        let axis = Axis { board, direction, axis_index, cell_index: 0 };
        assert(axis.line().skip(0) =~= axis.line());
        axis
    }

    /// The streaks of `player` among the cells that the walk has yet to
    /// reach, each once, in the order in which the walk meets them.
    pub fn streaks(self, player: PlayerIndicator) -> (found: Vec<Vec<Coord>>)
        ensures
            lists_exactly(found@, streak_set(self.remaining(), player)),
            in_walk_order(found@, self.remaining()),
    {
        let ghost cells = self.remaining();
        let mut walk = self;
        let mut current: Vec<Coord> = Vec::new();
        let mut found: Vec<Vec<Coord>> = Vec::new();
        let ghost mut seen: int = 0;
        let ghost mut bounds: Seq<(int, int)> = Seq::empty();
        proof {
            walk.lemma_remaining_distinct();
            assert(cells.skip(0) =~= cells);
            assert(current@ =~= coords_of(cells, 0, 0));
        }
        loop
            invariant_except_break
                walk.remaining() == cells.skip(seen),
            invariant
                0 <= seen <= cells.len(),
                distinct_coords(cells),
                current.len() <= seen,
                current@ == coords_of(cells, seen - current.len(), seen),
                forall|k: int| seen - current.len() <= k < seen ==> (#[trigger] cells[k]).1 == Some(player),
                seen == current.len() || cells[seen - current.len() - 1].1 != Some(player),
                collected(found@, bounds, cells, player, seen - current.len(), false),
            ensures
                seen == cells.len(),
            decreases cells.len() - seen,
        {
            match walk.next() {
                Some((coord, cell)) => {
                    assert(cells.skip(seen)[0] == cells[seen]);
                    assert(cells.skip(seen).drop_first() =~= cells.skip(seen + 1));
                    if owned_by(cell, player) {
                        current.push(coord);
                        proof {
                            seen = seen + 1;
                            assert(current@ =~= coords_of(cells, seen - current.len(), seen));
                        }
                    } else {
                        proof {
                            lemma_run_closed(found@, bounds, cells, player, seen - current.len(), seen, false, current);
                        }
                        if !current.is_empty() {
                            found.push(current);
                            proof {
                                bounds = bounds.push((seen - current.len(), seen));
                            }
                        }
                        current = Vec::new();
                        proof {
                            seen = seen + 1;
                            assert(current@ =~= coords_of(cells, seen, seen));
                        }
                    }
                },
                None => {
                    break ;
                },
            }
        }
        proof {
            lemma_run_closed(found@, bounds, cells, player, seen - current.len(), seen, false, current);
        }
        if !current.is_empty() {
            found.push(current);
            proof {
                bounds = bounds.push((seen - current.len(), seen));
            }
        }
        proof {
            lemma_collected_all(found@, bounds, cells, player, false);
        }
        found
    }

    /// Number of empty cells in a row at the head of what the walk has yet to
    /// reach.
    fn empty_ahead(self) -> (count: usize)
        ensures
            count == room_after(self.remaining(), 0),
            count <= self.remaining().len(),
    {
        let ghost cells = self.remaining();
        let mut walk = self;
        let mut count: usize = 0;
        proof {
            assert(cells.skip(0) =~= cells);
        }
        loop
            invariant_except_break
                walk.remaining() == cells.skip(count as int),
            invariant
                count <= cells.len() <= 15,
                room_after(cells, 0) == count + room_after(cells, count as int),
            ensures
                room_after(cells, count as int) == 0,
            decreases cells.len() - count,
        {
            match walk.next() {
                Some((_, None)) => {
                    assert(cells.skip(count as int)[0] == cells[count as int]);
                    assert(cells.skip(count as int).drop_first() =~= cells.skip(count + 1));
                    count += 1;
                },
                Some((_, Some(_))) => {
                    assert(cells.skip(count as int)[0] == cells[count as int]);
                    break ;
                },
                None => {
                    break ;
                },
            }
        }
        count
    }

    /// The streaks of `player` with room among the cells that the walk has
    /// yet to reach, each once, in the order in which the walk meets them.
    /// The room of a streak is counted along these cells only:
    /// the empty cells directly before it, its own cells, and the empty cells
    /// directly behind it.
    pub fn streaks_with_room(self, player: PlayerIndicator) -> (found: Vec<Vec<Coord>>)
        ensures
            lists_exactly(found@, roomy_streak_set(self.remaining(), player)),
            in_walk_order(found@, self.remaining()),
    {
        let ghost cells = self.remaining();
        let mut walk = self;
        let mut preceding: usize = 0;
        let mut current: Vec<Coord> = Vec::new();
        let mut found: Vec<Vec<Coord>> = Vec::new();
        let ghost mut seen: int = 0;
        let ghost mut bounds: Seq<(int, int)> = Seq::empty();
        proof {
            walk.lemma_remaining_distinct();
            assert(cells.skip(0) =~= cells);
            assert(current@ =~= coords_of(cells, 0, 0));
        }
        loop
            invariant_except_break
                walk.remaining() == cells.skip(seen),
            invariant
                0 <= seen <= cells.len() <= 15,
                distinct_coords(cells),
                current.len() <= seen,
                current@ == coords_of(cells, seen - current.len(), seen),
                forall|k: int| seen - current.len() <= k < seen ==> (#[trigger] cells[k]).1 == Some(player),
                seen == current.len() || cells[seen - current.len() - 1].1 != Some(player),
                preceding == room_before(cells, seen - current.len()),
                collected(found@, bounds, cells, player, seen - current.len(), true),
            ensures
                seen == cells.len(),
            decreases cells.len() - seen,
        {
            match walk.next() {
                Some((coord, cell)) => {
                    assert(cells.skip(seen)[0] == cells[seen]);
                    assert(cells.skip(seen).drop_first() =~= cells.skip(seen + 1));
                    if owned_by(cell, player) {
                        current.push(coord);
                        proof {
                            seen = seen + 1;
                            assert(current@ =~= coords_of(cells, seen - current.len(), seen));
                        }
                    } else {
                        proof {
                            lemma_room_bounds(cells, seen - current.len());
                            lemma_room_after_skip(cells, seen + 1, 0);
                            lemma_run_closed(found@, bounds, cells, player, seen - current.len(), seen, true, current);
                        }
                        let after_run = !current.is_empty();
                        let ghost start = seen - current.len();
                        assert(room_before(cells, seen) == (if after_run {
                            0
                        } else {
                            preceding as int
                        }));
                        assert(room_before(cells, seen + 1) == (if cell is None {
                            1 + room_before(cells, seen)
                        } else {
                            0
                        }));
                        if after_run {
                            let succeeding = if cell.is_none() {
                                1 + walk.empty_ahead()
                            } else {
                                0
                            };
                            if current.len() + preceding + succeeding >= VICTORY_STREAK {
                                found.push(current);
                                proof {
                                    bounds = bounds.push((start, seen));
                                }
                            }
                        }
                        preceding = if cell.is_none() {
                            if after_run {
                                1
                            } else {
                                preceding + 1
                            }
                        } else {
                            0
                        };
                        current = Vec::new();
                        proof {
                            seen = seen + 1;
                            assert(current@ =~= coords_of(cells, seen, seen));
                        }
                    }
                },
                None => {
                    break ;
                },
            }
        }
        proof {
            lemma_room_bounds(cells, seen - current.len());
            lemma_run_closed(found@, bounds, cells, player, seen - current.len(), seen, true, current);
        }
        if !current.is_empty() && current.len() + preceding >= VICTORY_STREAK {
            found.push(current);
            proof {
                bounds = bounds.push((seen - current.len(), seen));
            }
        }
        proof {
            lemma_collected_all(found@, bounds, cells, player, true);
        }
        found
    }

    /// No two cells of a line share a coordinate.
    pub proof fn lemma_remaining_distinct(&self)
        ensures
            distinct_coords(self.remaining()),
            distinct_coords(self.line()),
    {
        lemma_line_on_board(self.direction(), self.axis_index());
        let line = self.line();
        assert forall|j: int, k: int| 0 <= j < k < line.len() implies (#[trigger] line[j]).0 != (#[trigger] line[k]).0 by {
            assert(line[j].0 == self.direction().line_coord(self.axis_index(), j));
            assert(line[k].0 == self.direction().line_coord(self.axis_index(), k));
        }
        let rest = self.remaining();
        assert forall|j: int, k: int| 0 <= j < k < rest.len() implies (#[trigger] rest[j]).0 != (#[trigger] rest[k]).0 by {
            assert(rest[j] == line[self.position() + j]);
            assert(rest[k] == line[self.position() + k]);
        }
    }

    /// The next cell of the line, or `None` behind its last cell.
    pub fn next(&mut self) -> (item: Option<LineCell>)
        ensures
            final(self).board() == old(self).board(),
            final(self).direction() == old(self).direction(),
            final(self).axis_index() == old(self).axis_index(),
            old(self).remaining().len() == 0 ==> item is None && *final(self) == *old(self),
            old(self).remaining().len() > 0 ==> item == Some(old(self).remaining()[0])
                && final(self).remaining() == old(self).remaining().drop_first()
                && final(self).position() == old(self).position() + 1,
            item matches Some((coords, cell)) ==> in_bounds(coords.0 as int, coords.1 as int) && cell == old(self).board().cell(
                coords.0 as int,
                coords.1 as int,
            ),
    {
        if self.axis_index > 14 || self.cell_index > 14 {
            return None;
        }
        let a = self.axis_index;
        let k = self.cell_index;
        let place: Option<Coord> = match self.direction {
            Direction::Horizontal => Some((a, k)),
            Direction::Vertical => Some((k, a)),
            Direction::BottomLeftDiagonal => if k <= a {
                Some((14 - a + k, k))
            } else {
                None
            },
            Direction::TopLeftDiagonal => if k <= a {
                Some((a - k, k))
            } else {
                None
            },
            Direction::TopRightDiagonal => if a + k <= 14 {
                Some((a + k, 14 - k))
            } else {
                None
            },
            Direction::BottomRightDiagonal => if a + k <= 14 {
                Some((14 - a - k, 14 - k))
            } else {
                None
            },
        };
        match place {
            Some((i, j)) => {
                let cell = self.board.get(i, j);
                self.cell_index = k + 1;
                assert(self.remaining() =~= old(self).remaining().drop_first());
                Some(((i, j), cell))
            },
            None => None,
        }
    }
}

/// Number of lines of the board: 15 rows, 15 columns and 29 diagonals in
/// each of the two diagonal directions.
pub const LINE_COUNT: usize = 88;

/// Family and index of line `n` in the order in which the lines are scanned:
/// rows, columns, the diagonals that run down to the right (15 from the left
/// edge, then 14 from the right edge), the diagonals that run up to the right
/// (15 from the left edge, then 14 from the right edge). The two families from
/// the right edge leave out their index 0, which is the main diagonal that the
/// family from the left edge has covered.
pub open spec fn line_at(n: int) -> (Direction, int) {
    if n < 15 {
        (Direction::Horizontal, n)
    } else if n < 30 {
        (Direction::Vertical, n - 15)
    } else if n < 45 {
        (Direction::BottomLeftDiagonal, n - 30)
    } else if n < 60 {
        (Direction::TopLeftDiagonal, n - 45)
    } else if n < 74 {
        (Direction::TopRightDiagonal, n - 59)
    } else {
        (Direction::BottomRightDiagonal, n - 73)
    }
}

/// The cells of line `n` of a board.
pub open spec fn cells_of_line(board: Board, n: int) -> Seq<LineCell> {
    line_cells(board, line_at(n).0, line_at(n).1)
}

/// No line has more than 15 cells.
pub proof fn lemma_line_len(n: int)
    ensures
        forall|board: Board| (#[trigger] cells_of_line(board, n)).len() <= 15,
{
}

/// The streaks of `player` among the cells, all of them or those with room.
pub open spec fn streaks_among(cells: Seq<LineCell>, player: PlayerIndicator, roomy: bool) -> Set<Seq<Coord>> {
    if roomy {
        roomy_streak_set(cells, player)
    } else {
        streak_set(cells, player)
    }
}

/// The streaks of `player` on the lines from line `from` on, all of them or
/// those with room. A streak of one cell lies on four lines and is one
/// member of the set.
pub open spec fn streaks_on_lines(board: Board, player: PlayerIndicator, from: int, roomy: bool) -> Set<Seq<Coord>> {
    Set::new(
        |run: Seq<Coord>| exists|n: int| from <= n < LINE_COUNT && #[trigger] streaks_among(cells_of_line(board, n), player, roomy).contains(run),
    )
}

/// The direction in which a family of lines runs: 0 for rows, 1 for columns,
/// 2 for the diagonals that run down to the right, 3 for those that run up to
/// the right. Each diagonal direction has a family from the left edge and one
/// from the right edge.
pub open spec fn orientation(direction: Direction) -> int {
    match direction {
        Direction::Horizontal => 0,
        Direction::Vertical => 1,
        Direction::BottomLeftDiagonal | Direction::BottomRightDiagonal => 2,
        Direction::TopLeftDiagonal | Direction::TopRightDiagonal => 3,
    }
}

/// Whether cell `k` of line `n` exists and is the cell in the given row and
/// column.
pub open spec fn line_meets(n: int, k: int, row: int, col: int) -> bool {
    &&& 0 <= n < LINE_COUNT
    &&& 0 <= k < line_at(n).0.line_len(line_at(n).1)
    &&& line_at(n).0.line_cell(line_at(n).1, k) == (row, col)
}

/// Number of cells of the lines before line `n`, each cell counted once for
/// every line that it lies on.
pub open spec fn cells_before(n: int) -> int
    decreases n,
{
    if n <= 0 {
        0
    } else {
        cells_before(n - 1) + line_at(n - 1).0.line_len(line_at(n - 1).1)
    }
}

/// Law of the lines, first part: every cell that a line yields lies on the
/// board.
pub proof fn lemma_lines_on_board(n: int, k: int)
    requires
        0 <= n < LINE_COUNT,
        0 <= k < line_at(n).0.line_len(line_at(n).1),
    ensures
        in_bounds(line_at(n).0.line_cell(line_at(n).1, k).0, line_at(n).0.line_cell(line_at(n).1, k).1),
{
}

/// Law of the lines, second part: in each of the four directions the lines
/// cover the board exactly once. Every cell of the board lies on one line of
/// that direction, at one place of it.
pub proof fn lemma_lines_cover(row: int, col: int, way: int)
    requires
        in_bounds(row, col),
        0 <= way < 4,
    ensures
        exists|n: int, k: int| #[trigger] line_meets(n, k, row, col) && orientation(line_at(n).0) == way,
        forall|n1: int, k1: int, n2: int, k2: int|
            #[trigger] line_meets(n1, k1, row, col) && orientation(line_at(n1).0) == way
            && #[trigger] line_meets(n2, k2, row, col) && orientation(line_at(n2).0) == way
            ==> n1 == n2 && k1 == k2,
{
    let (n, k) = if way == 0 {
        (row, col)
    } else if way == 1 {
        (15 + col, row)
    } else if way == 2 {
        if row >= col {
            (30 + 14 - (row - col), col)
        } else {
            (73 + (col - row), 14 - col)
        }
    } else {
        if row + col <= 14 {
            (45 + row + col, col)
        } else {
            (59 + (row + col - 14), 14 - col)
        }
    };
    assert(line_meets(n, k, row, col));
}

/// Law of the lines, third part: together the lines hold 900 cells, four for
/// each of the 225 cells of the board.
pub proof fn lemma_lines_total()
    ensures
        cells_before(LINE_COUNT as int) == 15 * 15 * 4,
{
    assert(cells_before(15) == 225) by {
        reveal_with_fuel(cells_before, 16);
    }
    assert(cells_before(30) == 450) by {
        reveal_with_fuel(cells_before, 16);
    }
    assert(cells_before(45) == 570) by {
        reveal_with_fuel(cells_before, 16);
    }
    assert(cells_before(60) == 690) by {
        reveal_with_fuel(cells_before, 16);
    }
    assert(cells_before(74) == 795) by {
        reveal_with_fuel(cells_before, 15);
    }
    assert(cells_before(88) == 900) by {
        reveal_with_fuel(cells_before, 15);
    }
}

/// Whether the five cells of line `n` from cell `k` on belong to `player`.
pub open spec fn five_on_line(board: Board, player: PlayerIndicator, n: int, k: int) -> bool {
    &&& 0 <= n < LINE_COUNT
    &&& 0 <= k
    &&& k + 5 <= cells_of_line(board, n).len()
    &&& forall|j: int| k <= j < k + 5 ==> (#[trigger] cells_of_line(board, n)[j]).1 == Some(player)
}

/// Five in a line lie on one of the lines: the lines miss no five.
pub proof fn lemma_five_lies_on_a_line(board: Board, player: PlayerIndicator, row: int, col: int, dr: int, dc: int)
    requires
        is_step(dr, dc),
        five_from(board, player, row, col, dr, dc),
    ensures
        exists|n: int, k: int| five_on_line(board, player, n, k),
{
    let (n, k) = if dr == 0 {
        (row, col)
    } else if dc == 0 {
        (15 + col, row)
    } else if dc == 1 {
        if row >= col {
            (30 + 14 - (row - col), col)
        } else {
            (73 + (col - row), 10 - col)
        }
    } else {
        if row + col <= 14 {
            (45 + row + col, col - 4)
        } else {
            (59 + (row + col - 14), 14 - col)
        }
    };
    let cells = cells_of_line(board, n);
    assert(owns(board, player, row, col));
    assert(owns(board, player, row + dr, col + dc));
    assert(owns(board, player, row + 2 * dr, col + 2 * dc));
    assert(owns(board, player, row + 3 * dr, col + 3 * dc));
    assert(owns(board, player, row + 4 * dr, col + 4 * dc));
    assert forall|j: int| k <= j < k + 5 implies (#[trigger] cells[j]).1 == Some(player) by {
        let at = line_at(n).0.line_cell(line_at(n).1, j);
        assert(cells[j].1 == board.cell(at.0, at.1));
        if j == k {
        } else if j == k + 1 {
        } else if j == k + 2 {
        } else if j == k + 3 {
        } else {
        }
    }
    assert(five_on_line(board, player, n, k));
}

/// Five cells of one player in a row on a line are five in a line: the lines
/// hold no five that is none.
pub proof fn lemma_line_holds_a_five(board: Board, player: PlayerIndicator, n: int, k: int)
    requires
        five_on_line(board, player, n, k),
    ensures
        exists|row: int, col: int, dr: int, dc: int| is_step(dr, dc) && #[trigger] five_from(board, player, row, col, dr, dc),
{
    let (direction, axis) = line_at(n);
    let cells = cells_of_line(board, n);
    lemma_line_on_board(direction, axis);
    let first = direction.line_cell(axis, k);
    let last = direction.line_cell(axis, k + 4);
    let (row, col, dr, dc) = match direction {
        Direction::Horizontal => (first.0, first.1, 0int, 1int),
        Direction::Vertical => (first.0, first.1, 1int, 0int),
        Direction::BottomLeftDiagonal => (first.0, first.1, 1int, 1int),
        Direction::TopLeftDiagonal => (last.0, last.1, 1int, -1int),
        Direction::TopRightDiagonal => (first.0, first.1, 1int, -1int),
        Direction::BottomRightDiagonal => (last.0, last.1, 1int, 1int),
    };
    assert forall|j: int| k <= j < k + 5 implies owns(board, player, (#[trigger] direction.line_cell(axis, j)).0, direction.line_cell(axis, j).1) by {
        assert(cells[j].1 == Some(player));
    }
    assert(owns(board, player, direction.line_cell(axis, k).0, direction.line_cell(axis, k).1));
    assert(owns(board, player, direction.line_cell(axis, k + 1).0, direction.line_cell(axis, k + 1).1));
    assert(owns(board, player, direction.line_cell(axis, k + 2).0, direction.line_cell(axis, k + 2).1));
    assert(owns(board, player, direction.line_cell(axis, k + 3).0, direction.line_cell(axis, k + 3).1));
    assert(owns(board, player, direction.line_cell(axis, k + 4).0, direction.line_cell(axis, k + 4).1));
    assert(five_from(board, player, row, col, dr, dc));
}

/// The start of the run of cells of `player` that reaches up to position
/// `at`.
pub open spec fn run_start(cells: Seq<LineCell>, player: PlayerIndicator, at: int) -> int
    decreases at,
{
    if 0 < at <= cells.len() && cells[at - 1].1 == Some(player) {
        run_start(cells, player, at - 1)
    } else {
        at
    }
}

/// The end of the run of cells of `player` that begins at position `at`.
pub open spec fn run_end(cells: Seq<LineCell>, player: PlayerIndicator, at: int) -> int
    decreases cells.len() - at,
{
    if 0 <= at < cells.len() && cells[at].1 == Some(player) {
        run_end(cells, player, at + 1)
    } else {
        at
    }
}

proof fn lemma_run_start(cells: Seq<LineCell>, player: PlayerIndicator, at: int)
    requires
        0 <= at <= cells.len(),
    ensures
        0 <= run_start(cells, player, at) <= at,
        forall|j: int| run_start(cells, player, at) <= j < at ==> (#[trigger] cells[j]).1 == Some(player),
        run_start(cells, player, at) == 0 || cells[run_start(cells, player, at) - 1].1 != Some(player),
    decreases at,
{
    if 0 < at && cells[at - 1].1 == Some(player) {
        lemma_run_start(cells, player, at - 1);
    }
}

proof fn lemma_run_end(cells: Seq<LineCell>, player: PlayerIndicator, at: int)
    requires
        0 <= at <= cells.len(),
    ensures
        at <= run_end(cells, player, at) <= cells.len(),
        forall|j: int| at <= j < run_end(cells, player, at) ==> (#[trigger] cells[j]).1 == Some(player),
        run_end(cells, player, at) == cells.len() || cells[run_end(cells, player, at)].1 != Some(player),
    decreases cells.len() - at,
{
    if at < cells.len() && cells[at].1 == Some(player) {
        lemma_run_end(cells, player, at + 1);
    }
}

/// Cells of one player in a row are part of a streak: the run from `from`
/// up to `to` lies inside the streak from `run_start` to `run_end`.
pub proof fn lemma_run_lies_in_a_streak(cells: Seq<LineCell>, player: PlayerIndicator, from: int, to: int)
    requires
        0 <= from < to <= cells.len(),
        forall|j: int| from <= j < to ==> (#[trigger] cells[j]).1 == Some(player),
    ensures
        is_streak(cells, player, run_start(cells, player, from), run_end(cells, player, to)),
        run_start(cells, player, from) <= from,
        to <= run_end(cells, player, to),
{
    lemma_run_start(cells, player, from);
    lemma_run_end(cells, player, to);
}

/// A streak of five cells or more has room.
pub proof fn lemma_long_streak_has_room(cells: Seq<LineCell>, player: PlayerIndicator, start: int, end: int)
    requires
        is_streak(cells, player, start, end),
        end - start >= VICTORY_STREAK,
    ensures
        is_streak_with_room(cells, player, start, end),
{
    lemma_room_bounds(cells, start);
    lemma_room_bounds(cells, end);
}

/// Whether two coordinate lists are the same.
fn same_run(a: &Vec<Coord>, b: &Vec<Coord>) -> (same: bool)
    ensures
        same == (a@ == b@),
{
    if a.len() != b.len() {
        return false;
    }
    let mut k: usize = 0;
    while k < a.len()
        invariant
            a.len() == b.len(),
            k <= a.len(),
            forall|i: int| 0 <= i < k ==> a@[i] == b@[i],
        decreases a.len() - k,
    {
        if a[k].0 != b[k].0 || a[k].1 != b[k].1 {
            return false;
        }
        k += 1;
    }
    assert(a@ =~= b@);
    true
}

/// Whether `run` is among `found`.
fn holds_run(found: &Vec<Vec<Coord>>, run: &Vec<Coord>) -> (held: bool)
    ensures
        held == exists|i: int| 0 <= i < found.len() && #[trigger] found[i]@ == run@,
{
    let mut k: usize = 0;
    while k < found.len()
        invariant
            k <= found.len(),
            forall|i: int| 0 <= i < k ==> #[trigger] found[i]@ != run@,
        decreases found.len() - k,
    {
        if same_run(&found[k], run) {
            return true;
        }
        k += 1;
    }
    false
}

/// A walk over the lines of a board.
pub struct Axes<'a> {
    board: &'a Board,
    direction: Direction,
    axis_index: usize,
    done: bool,
}

impl<'a> Axes<'a> {
    #[verifier::type_invariant]
    spec fn on_a_line(&self) -> bool {
        &&& self.axis_index <= 14
        &&& (self.direction == Direction::TopRightDiagonal || self.direction == Direction::BottomRightDiagonal) ==> self.axis_index >= 1
    }

    /// The board whose lines are walked.
    pub closed spec fn board(&self) -> Board {
        *self.board
    }

    /// Number of lines that the walk has handed out.
    pub closed spec fn position(&self) -> int {
        if self.done {
            LINE_COUNT as int
        } else {
            match self.direction {
                Direction::Horizontal => self.axis_index as int,
                Direction::Vertical => 15 + self.axis_index,
                Direction::BottomLeftDiagonal => 30 + self.axis_index,
                Direction::TopLeftDiagonal => 45 + self.axis_index,
                Direction::TopRightDiagonal => 59 + self.axis_index,
                Direction::BottomRightDiagonal => 73 + self.axis_index,
            }
        }
    }

    /// A walk from the first line of the board.
    pub fn new(board: &'a Board) -> (lines: Axes<'a>)
        ensures
            lines.board() == *board,
            lines.position() == 0,
    {
        Axes { board, direction: Direction::Horizontal, axis_index: 0, done: false }
    }

    /// The streaks of `player` on the lines that the walk has yet to hand
    /// out, each once.
    pub fn streaks(self, player: PlayerIndicator) -> (found: Vec<Vec<Coord>>)
        ensures
            lists_exactly(found@, streaks_on_lines(self.board(), player, self.position(), false)),
    {
        self.gather(player, false)
    }

    /// The streaks of `player` with room on the lines that the walk has yet
    /// to hand out, each once.
    pub fn streaks_with_room(self, player: PlayerIndicator) -> (found: Vec<Vec<Coord>>)
        ensures
            lists_exactly(found@, streaks_on_lines(self.board(), player, self.position(), true)),
    {
        self.gather(player, true)
    }

    /// Collects the streaks of every remaining line and keeps one of each.
    fn gather(self, player: PlayerIndicator, roomy: bool) -> (found: Vec<Vec<Coord>>)
        ensures
            lists_exactly(found@, streaks_on_lines(self.board(), player, self.position(), roomy)),
    {
        let ghost board = self.board();
        let ghost from = self.position();
        let ghost wanted = streaks_on_lines(board, player, from, roomy);
        proof {
            use_type_invariant(&self);
        }
        let mut lines = self;
        let mut found: Vec<Vec<Coord>> = Vec::new();
        loop
            invariant
                lines.board() == board,
                0 <= from <= lines.position() <= LINE_COUNT,
                wanted == streaks_on_lines(board, player, from, roomy),
                forall|i: int| 0 <= i < found.len() ==> wanted.contains(#[trigger] found[i]@),
                forall|i: int, j: int| 0 <= i < j < found.len() ==> #[trigger] found[i]@ != #[trigger] found[j]@,
                forall|n: int, run: Seq<Coord>| from <= n < lines.position() && #[trigger] streaks_among(cells_of_line(board, n), player, roomy).contains(run)
                    ==> exists|i: int| 0 <= i < found.len() && #[trigger] found[i]@ == run,
            ensures
                lines.position() == LINE_COUNT,
            decreases LINE_COUNT - lines.position(),
        {
            let ghost n = lines.position();
            match lines.next() {
                Some(axis) => {
                    let ghost here = streaks_among(cells_of_line(board, n), player, roomy);
                    let mut runs = if roomy {
                        axis.streaks_with_room(player)
                    } else {
                        axis.streaks(player)
                    };
                    while runs.len() > 0
                        invariant
                            lines.board() == board,
                            0 <= from <= n < LINE_COUNT,
                            lines.position() == n + 1,
                            here == streaks_among(cells_of_line(board, n), player, roomy),
                            wanted == streaks_on_lines(board, player, from, roomy),
                            forall|i: int| 0 <= i < runs.len() ==> here.contains(#[trigger] runs[i]@),
                            forall|i: int| 0 <= i < found.len() ==> wanted.contains(#[trigger] found[i]@),
                            forall|i: int, j: int| 0 <= i < j < found.len() ==> #[trigger] found[i]@ != #[trigger] found[j]@,
                            forall|m: int, run: Seq<Coord>| from <= m < n && #[trigger] streaks_among(cells_of_line(board, m), player, roomy).contains(run)
                                ==> exists|i: int| 0 <= i < found.len() && #[trigger] found[i]@ == run,
                            forall|run: Seq<Coord>| here.contains(run)
                                ==> (exists|i: int| 0 <= i < found.len() && #[trigger] found[i]@ == run)
                                    || (exists|i: int| 0 <= i < runs.len() && #[trigger] runs[i]@ == run),
                        decreases runs.len(),
                    {
                        let ghost before = runs@;
                        let ghost had = found@;
                        let run = runs.pop().unwrap();
                        assert(before[before.len() - 1] == run);
                        assert(here.contains(run@));
                        if !holds_run(&found, &run) {
                            found.push(run);
                        }
                        proof {
                            assert forall|i: int| 0 <= i < found.len() implies wanted.contains(#[trigger] found[i]@) by {
                                if i < had.len() {
                                    assert(found[i] == had[i]);
                                }
                            }
                            assert forall|other: Seq<Coord>| here.contains(other) implies (exists|i: int| 0 <= i < found.len() && #[trigger] found[i]@ == other)
                                || (exists|i: int| 0 <= i < runs.len() && #[trigger] runs[i]@ == other) by {
                                if exists|i: int| 0 <= i < had.len() && #[trigger] had[i]@ == other {
                                    let i = choose|i: int| 0 <= i < had.len() && #[trigger] had[i]@ == other;
                                    assert(found[i]@ == other);
                                } else {
                                    let i = choose|i: int| 0 <= i < before.len() && #[trigger] before[i]@ == other;
                                    if i == before.len() - 1 {
                                        assert(found[found.len() - 1]@ == other);
                                    } else {
                                        assert(runs[i]@ == other);
                                    }
                                }
                            }
                            assert forall|m: int, other: Seq<Coord>| from <= m < n && #[trigger] streaks_among(cells_of_line(board, m), player, roomy).contains(other)
                                implies exists|i: int| 0 <= i < found.len() && #[trigger] found[i]@ == other by {
                                let i = choose|i: int| 0 <= i < had.len() && #[trigger] had[i]@ == other;
                                assert(found[i]@ == other);
                            }
                        }
                    }
                    proof {
                        assert forall|m: int, other: Seq<Coord>| from <= m < n + 1 && #[trigger] streaks_among(cells_of_line(board, m), player, roomy).contains(other)
                            implies exists|i: int| 0 <= i < found.len() && #[trigger] found[i]@ == other by {
                            if m == n {
                                assert(here.contains(other));
                            }
                        }
                    }
                },
                None => {
                    break ;
                },
            }
        }
        proof {
            assert forall|run: Seq<Coord>| wanted.contains(run) implies exists|i: int| 0 <= i < found.len() && #[trigger] found[i]@ == run by {
                let n = choose|n: int| from <= n < LINE_COUNT && #[trigger] streaks_among(cells_of_line(board, n), player, roomy).contains(run);
                assert(streaks_among(cells_of_line(board, n), player, roomy).contains(run));
            }
        }
        found
    }

    /// The next line, as a walk from its first cell, or `None` behind the
    /// last line.
    pub fn next(&mut self) -> (item: Option<Axis<'a>>)
        ensures
            final(self).board() == old(self).board(),
            0 <= old(self).position() <= LINE_COUNT,
            old(self).position() == LINE_COUNT ==> item is None && final(self).position() == LINE_COUNT,
            old(self).position() < LINE_COUNT ==> final(self).position() == old(self).position() + 1 && item is Some && {
                let axis = item->0;
                &&& axis.board() == old(self).board()
                &&& (axis.direction(), axis.axis_index()) == line_at(old(self).position())
                &&& axis.position() == 0
                &&& axis.remaining() == cells_of_line(old(self).board(), old(self).position())
            },
    {
        proof {
            use_type_invariant(&*self);
        }
        if self.done {
            return None;
        }
        let axis = Axis::new(self.board, self.direction, self.axis_index);
        if self.axis_index < 14 {
            self.axis_index += 1;
        } else {
            match self.direction {
                Direction::Horizontal => {
                    self.direction = Direction::Vertical;
                    self.axis_index = 0;
                },
                Direction::Vertical => {
                    self.direction = Direction::BottomLeftDiagonal;
                    self.axis_index = 0;
                },
                Direction::BottomLeftDiagonal => {
                    self.direction = Direction::TopLeftDiagonal;
                    self.axis_index = 0;
                },
                Direction::TopLeftDiagonal => {
                    self.direction = Direction::TopRightDiagonal;
                    self.axis_index = 1;
                },
                Direction::TopRightDiagonal => {
                    self.direction = Direction::BottomRightDiagonal;
                    self.axis_index = 1;
                },
                Direction::BottomRightDiagonal => {
                    self.done = true;
                },
            }
        }
        Some(axis)
    }
}

} // verus!

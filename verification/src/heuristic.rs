use crate::ai::is_evaluator;
use crate::axes::{
    cells_of_line, coords_of, five_on_line, is_streak_with_room, lemma_five_lies_on_a_line, lemma_line_holds_a_five, lemma_line_len,
    lemma_long_streak_has_room, lemma_run_lies_in_a_streak, lists_exactly, roomy_streak_set, run_end, run_start, Axes, LINE_COUNT,
};
use crate::board::Board;
use crate::game::{five_from, is_step, wins, PlayerIndicator, VICTORY_STREAK};
use vstd::prelude::*;

verus! {

/// The score of a position in which the player has five in a line. It lies
/// one below the greatest `isize`, which the search keeps for plus infinity.
pub const CERTAIN_WIN: isize = isize::MAX - 1;

/// Whether `player` has a streak with room of exactly `len` cells on some
/// line of the board.
pub open spec fn has_open_run(board: Board, player: PlayerIndicator, len: int) -> bool {
    exists|n: int, start: int| 0 <= n < LINE_COUNT && #[trigger] is_streak_with_room(cells_of_line(board, n), player, start, start + len)
}

/// The greatest length up to `limit` of a streak with room of `player`, or 0
/// where there is none.
pub open spec fn longest_open_run_up_to(board: Board, player: PlayerIndicator, limit: int) -> int
    decreases limit,
{
    if limit <= 0 {
        0
    } else if has_open_run(board, player, limit) {
        limit
    } else {
        longest_open_run_up_to(board, player, limit - 1)
    }
}

/// The length of the longest streak with room of `player` on the board, or 0
/// where there is none. No line has more than 15 cells.
pub open spec fn longest_open_run(board: Board, player: PlayerIndicator) -> int {
    longest_open_run_up_to(board, player, 15)
}

/// The score of a position for `player`: the length of the longest streak
/// that can still become five in a line, and `CERTAIN_WIN` once five are
/// reached. The stones of the opponent count only in so far as they take
/// room.
pub open spec fn heuristic_score(board: Board, player: PlayerIndicator) -> isize {
    if longest_open_run(board, player) >= VICTORY_STREAK {
        CERTAIN_WIN
    } else {
        longest_open_run(board, player) as isize
    }
}

/// The longest open run is the length of a streak with room, unless it is 0,
/// and no streak with room up to `limit` cells is longer.
pub proof fn lemma_longest_open_run(board: Board, player: PlayerIndicator, limit: int)
    ensures
        0 <= longest_open_run_up_to(board, player, limit),
        longest_open_run_up_to(board, player, limit) > 0 ==> has_open_run(board, player, longest_open_run_up_to(board, player, limit)),
        forall|len: int| 0 < len <= limit && has_open_run(board, player, len) ==> len <= longest_open_run_up_to(board, player, limit),
    decreases limit,
{
    if limit > 0 && !has_open_run(board, player, limit) {
        lemma_longest_open_run(board, player, limit - 1);
    }
}

/// Law of the evaluator: the score is `CERTAIN_WIN` exactly where the player
/// has five in a line, which is where the game is won. The lines of the
/// board and the search for the end of the game agree on what a five is.
pub proof fn lemma_certain_win_is_five_in_a_line(board: Board, player: PlayerIndicator)
    ensures
        heuristic_score(board, player) == CERTAIN_WIN <==> wins(board, player),
        heuristic_score(board, player) != CERTAIN_WIN ==> 0 <= heuristic_score(board, player) < VICTORY_STREAK,
{
    lemma_longest_open_run(board, player, 15);
    let longest = longest_open_run(board, player);
    if wins(board, player) {
        let (row, col, dr, dc) = choose|row: int, col: int, dr: int, dc: int| is_step(dr, dc) && #[trigger] five_from(board, player, row, col, dr, dc);
        lemma_five_lies_on_a_line(board, player, row, col, dr, dc);
        let (n, k) = choose|n: int, k: int| five_on_line(board, player, n, k);
        let cells = cells_of_line(board, n);
        lemma_line_len(n);
        lemma_run_lies_in_a_streak(cells, player, k, k + 5);
        let start = run_start(cells, player, k);
        let end = run_end(cells, player, k + 5);
        lemma_long_streak_has_room(cells, player, start, end);
        assert(is_streak_with_room(cells, player, start, start + (end - start)));
        assert(has_open_run(board, player, end - start));
        assert(longest >= 5);
    }
    if longest >= VICTORY_STREAK {
        let (n, start) = choose|n: int, start: int| 0 <= n < LINE_COUNT && #[trigger] is_streak_with_room(cells_of_line(board, n), player, start, start + longest);
        assert(five_on_line(board, player, n, start));
        lemma_line_holds_a_five(board, player, n, start);
    }
}

/// Whether `longest` is the greatest length of a streak with room of `player`
/// on the lines before line `limit`, or 0 where there is none.
spec fn longest_before(board: Board, player: PlayerIndicator, limit: int, longest: int) -> bool {
    &&& 0 <= longest <= 15
    &&& longest > 0 ==> exists|n: int, start: int| 0 <= n < limit && #[trigger] is_streak_with_room(cells_of_line(board, n), player, start, start + longest)
    &&& forall|n: int, start: int, end: int| 0 <= n < limit && #[trigger] is_streak_with_room(cells_of_line(board, n), player, start, end) ==> end - start <= longest
}

/// The greatest length over all lines is the longest open run.
proof fn lemma_longest(board: Board, player: PlayerIndicator, longest: int, limit: int)
    requires
        longest_before(board, player, LINE_COUNT as int, longest),
        longest <= limit,
    ensures
        longest_open_run_up_to(board, player, limit) == longest,
    decreases limit,
{
    if limit > 0 {
        if has_open_run(board, player, limit) {
            let (n, start) = choose|n: int, start: int| 0 <= n < LINE_COUNT && #[trigger] is_streak_with_room(cells_of_line(board, n), player, start, start + limit);
            assert(limit <= longest);
            assert(is_streak_with_room(cells_of_line(board, n), player, start, start + limit));
        } else {
            if longest == limit {
                let (n, start) = choose|n: int, start: int| 0 <= n < LINE_COUNT && #[trigger] is_streak_with_room(cells_of_line(board, n), player, start, start + longest);
                assert(has_open_run(board, player, limit));
            }
            lemma_longest(board, player, longest, limit - 1);
        }
    }
}

/// Scores a position for `player` by the longest streak of `player` that has
/// room to become five in a line.
pub fn heuristic(board: &Board, player: PlayerIndicator) -> (score: isize)
    ensures
        score == heuristic_score(*board, player),
        0 <= score < VICTORY_STREAK || score == CERTAIN_WIN,
        score == CERTAIN_WIN <==> wins(*board, player),
{
    proof {
        lemma_certain_win_is_five_in_a_line(*board, player);
    }
    let mut lines = Axes::new(board);
    let mut longest: usize = 0;
    loop
        invariant
            lines.board() == *board,
            0 <= lines.position() <= LINE_COUNT,
            longest_before(*board, player, lines.position(), longest as int),
        ensures
            lines.position() == LINE_COUNT,
        decreases LINE_COUNT - lines.position(),
    {
        let ghost n = lines.position();
        match lines.next() {
            Some(axis) => {
                let ghost cells = cells_of_line(*board, n);
                proof {
                    lemma_line_len(n);
                }
                let runs = axis.streaks_with_room(player);
                let mut k: usize = 0;
                while k < runs.len()
                    invariant
                        0 <= n < LINE_COUNT,
                        k <= runs.len(),
                        cells == cells_of_line(*board, n),
                        cells.len() <= 15,
                        lists_exactly(runs@, roomy_streak_set(cells, player)),
                        0 <= longest <= 15,
                        forall|m: int, start: int, end: int| 0 <= m < n && #[trigger] is_streak_with_room(cells_of_line(*board, m), player, start, end) ==> end - start <= longest,
                        longest > 0 ==> exists|m: int, start: int| 0 <= m <= n && #[trigger] is_streak_with_room(cells_of_line(*board, m), player, start, start + longest),
                        forall|i: int| 0 <= i < k ==> (#[trigger] runs[i]).len() <= longest,
                    decreases runs.len() - k,
                {
                    proof {
                        let run = runs[k as int]@;
                        assert(roomy_streak_set(cells, player).contains(run));
                        let (start, end) = choose|start: int, end: int| #[trigger] is_streak_with_room(cells, player, start, end) && run == coords_of(cells, start, end);
                        assert(run.len() == end - start);
                        assert(is_streak_with_room(cells, player, start, start + run.len()));
                    }
                    if runs[k].len() > longest {
                        longest = runs[k].len();
                    }
                    k += 1;
                }
                proof {
                    assert forall|m: int, start: int, end: int| 0 <= m < n + 1 && #[trigger] is_streak_with_room(cells_of_line(*board, m), player, start, end) implies end - start <= longest by {
                        if m == n {
                            let run = coords_of(cells, start, end);
                            assert(roomy_streak_set(cells, player).contains(run));
                            let i = choose|i: int| 0 <= i < runs.len() && #[trigger] runs[i]@ == run;
                            assert(runs[i].len() == end - start);
                        }
                    }
                }
            },
            None => {
                break ;
            },
        }
    }
    proof {
        lemma_longest(*board, player, longest as int, 15);
    }
    if longest >= VICTORY_STREAK {
        CERTAIN_WIN
    } else {
        longest as isize
    }
}

/// The score of `heuristic` fits the search: it accepts every position,
/// gives one score for each and stays clear of both infinities.
pub proof fn lemma_heuristic_is_evaluator()
    ensures
        is_evaluator(heuristic),
{
}

} // verus!

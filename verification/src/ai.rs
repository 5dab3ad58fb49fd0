use crate::board::{in_bounds, Board, Coord};
use crate::game::PlayerIndicator;
use crate::players::Player;
use vstd::prelude::*;

verus! {

/// Whether `f` is fit to score positions: it accepts every position, gives
/// one score for each, and keeps every score strictly between the least and
/// the greatest `isize`. Those two stand for minus and plus infinity in the
/// search, so a sure win is scored below the greatest value of the type.
pub open spec fn is_evaluator<F: Fn(&Board, PlayerIndicator) -> isize>(f: F) -> bool {
    &&& forall|board: &Board, player: PlayerIndicator| #[trigger] call_requires(f, (board, player))
    &&& forall|board: &Board, player: PlayerIndicator, a: isize, b: isize|
        #[trigger] call_ensures(f, (board, player), a) && #[trigger] call_ensures(f, (board, player), b) ==> a == b
    &&& forall|board: &Board, player: PlayerIndicator, score: isize| #[trigger] call_ensures(f, (board, player), score) ==> isize::MIN < score < isize::MAX
}

/// The score that `f` gives to a position, seen from `player` (and 0 for a
/// position on which `f` would never return, so that every position has a
/// score).
pub open spec fn score_of<F: Fn(&Board, PlayerIndicator) -> isize>(f: F, board: Board, player: PlayerIndicator) -> isize {
    let score = choose|score: isize| call_ensures(f, (&board, player), score);
    if call_ensures(f, (&board, player), score) {
        score
    } else {
        0
    }
}

/// Who moves at a node: the searching player where the search maximizes, the
/// opponent where it minimizes.
pub open spec fn mover(me: PlayerIndicator, maximizing: bool) -> PlayerIndicator {
    if maximizing {
        me
    } else {
        me.spec_opponent()
    }
}

/// Whether `value` is strictly better than `best` for the side that moves.
pub open spec fn improves(value: isize, best: isize, maximizing: bool) -> bool {
    if maximizing {
        value > best
    } else {
        value < best
    }
}

/// The value that any score improves on: minus infinity for the maximizing
/// side, plus infinity for the minimizing side.
pub open spec fn worst(maximizing: bool) -> isize {
    if maximizing {
        isize::MIN
    } else {
        isize::MAX
    }
}

/// Value and move of a position by plain minimax, `depth` plies deep, with
/// `me` as the searching player. A position at depth 0 or without a legal
/// move has its score and no move. Elsewhere the moves are tried in row-major
/// order and the first one with the best value is chosen.
pub open spec fn minimax<F: Fn(&Board, PlayerIndicator) -> isize>(
    f: F,
    me: PlayerIndicator,
    board: Board,
    depth: nat,
    maximizing: bool,
) -> (isize, Option<Coord>)
    decreases depth, board.legal_moves().len() + 1,
{
    if depth == 0 || board.legal_moves().len() == 0 {
        (score_of(f, board, me), None)
    } else {
        minimax_over(f, me, board, depth, maximizing, board.legal_moves(), (worst(maximizing), None))
    }
}

/// Plain minimax over the moves that are left to try at a node, from the best
/// value and move so far: a move replaces the best one only where its value is
/// strictly better.
pub open spec fn minimax_over<F: Fn(&Board, PlayerIndicator) -> isize>(
    f: F,
    me: PlayerIndicator,
    board: Board,
    depth: nat,
    maximizing: bool,
    moves: Seq<Coord>,
    best: (isize, Option<Coord>),
) -> (isize, Option<Coord>)
    decreases depth, moves.len(),
{
    if depth == 0 || moves.len() == 0 {
        best
    } else {
        let child = board.place(mover(me, maximizing), moves[0].0 as int, moves[0].1 as int);
        let value = minimax(f, me, child, (depth - 1) as nat, !maximizing).0;
        let next = if improves(value, best.0, maximizing) {
            (value, Some(moves[0]))
        } else {
            best
        };
        minimax_over(f, me, board, depth, maximizing, moves.drop_first(), next)
    }
}

/// Value and move of a position by minimax with alpha-beta pruning inside the
/// window from `alpha` to `beta`.
pub open spec fn alpha_beta<F: Fn(&Board, PlayerIndicator) -> isize>(
    f: F,
    me: PlayerIndicator,
    board: Board,
    depth: nat,
    alpha: isize,
    beta: isize,
    maximizing: bool,
) -> (isize, Option<Coord>)
    decreases depth, board.legal_moves().len() + 1,
{
    if depth == 0 || board.legal_moves().len() == 0 {
        (score_of(f, board, me), None)
    } else {
        alpha_beta_over(f, me, board, depth, alpha, beta, maximizing, board.legal_moves(), (worst(maximizing), None))
    }
}

/// Alpha-beta search over the moves that are left to try at a node. Each
/// value tightens the window on the side of the player who moves, and once
/// the window is closed the moves that are left are not tried.
pub open spec fn alpha_beta_over<F: Fn(&Board, PlayerIndicator) -> isize>(
    f: F,
    me: PlayerIndicator,
    board: Board,
    depth: nat,
    alpha: isize,
    beta: isize,
    maximizing: bool,
    moves: Seq<Coord>,
    best: (isize, Option<Coord>),
) -> (isize, Option<Coord>)
    decreases depth, moves.len(),
{
    if depth == 0 || moves.len() == 0 {
        best
    } else {
        let child = board.place(mover(me, maximizing), moves[0].0 as int, moves[0].1 as int);
        let value = alpha_beta(f, me, child, (depth - 1) as nat, alpha, beta, !maximizing).0;
        let next = if improves(value, best.0, maximizing) {
            (value, Some(moves[0]))
        } else {
            best
        };
        let low = if maximizing && value > alpha {
            value
        } else {
            alpha
        };
        let high = if !maximizing && value < beta {
            value
        } else {
            beta
        };
        if low >= high {
            next
        } else {
            alpha_beta_over(f, me, board, depth, low, high, maximizing, moves.drop_first(), next)
        }
    }
}

/// Plain minimax over the moves that are left at a node never makes the best
/// value worse, keeps it a score once it is one, and chooses among the best
/// move so far and the moves that are left.
pub proof fn lemma_minimax_over<F: Fn(&Board, PlayerIndicator) -> isize>(
    f: F,
    me: PlayerIndicator,
    board: Board,
    depth: nat,
    maximizing: bool,
    moves: Seq<Coord>,
    best: (isize, Option<Coord>),
)
    requires
        is_evaluator(f),
        depth > 0,
    ensures
        ({
            let found = minimax_over(f, me, board, depth, maximizing, moves, best);
            &&& maximizing ==> found.0 >= best.0
            &&& !maximizing ==> found.0 <= best.0
            &&& isize::MIN < best.0 < isize::MAX ==> isize::MIN < found.0 < isize::MAX
            &&& best.0 == worst(maximizing) && moves.len() > 0 ==> isize::MIN < found.0 < isize::MAX && found.1 is Some
            &&& found.1 == best.1 || (found.1 is Some && moves.contains(found.1->0))
        }),
    decreases depth, moves.len(),
{
    if moves.len() > 0 {
        let child = board.place(mover(me, maximizing), moves[0].0 as int, moves[0].1 as int);
        lemma_minimax_range(f, me, child, (depth - 1) as nat, !maximizing);
        let value = minimax(f, me, child, (depth - 1) as nat, !maximizing).0;
        let next = if improves(value, best.0, maximizing) {
            (value, Some(moves[0]))
        } else {
            best
        };
        lemma_minimax_over(f, me, board, depth, maximizing, moves.drop_first(), next);
        let found = minimax_over(f, me, board, depth, maximizing, moves.drop_first(), next);
        if found.1 is Some && moves.drop_first().contains(found.1->0) {
            let i = choose|i: int| 0 <= i < moves.drop_first().len() && moves.drop_first()[i] == found.1->0;
            assert(moves[i + 1] == found.1->0);
        }
        assert(moves.contains(moves[0]));
    }
}

/// The value of a position by plain minimax is a score: it lies strictly
/// between minus and plus infinity.
pub proof fn lemma_minimax_range<F: Fn(&Board, PlayerIndicator) -> isize>(
    f: F,
    me: PlayerIndicator,
    board: Board,
    depth: nat,
    maximizing: bool,
)
    requires
        is_evaluator(f),
    ensures
        isize::MIN < minimax(f, me, board, depth, maximizing).0 < isize::MAX,
        depth > 0 && board.legal_moves().len() > 0 ==> {
            let chosen = minimax(f, me, board, depth, maximizing).1;
            chosen is Some && board.legal_moves().contains(chosen->0)
        },
    decreases depth, board.legal_moves().len() + 1,
{
    if depth == 0 || board.legal_moves().len() == 0 {
    } else {
        lemma_minimax_over(f, me, board, depth, maximizing, board.legal_moves(), (worst(maximizing), None));
    }
}

/// What pruning keeps, at a node. The window from `alpha` to `beta` is open.
/// Where the minimax value lies strictly inside the window, alpha-beta search
/// finds that value and the same move. Where it lies at or below `alpha`, or at or
/// above `beta`, the value of the alpha-beta search lies there too.
pub proof fn lemma_alpha_beta<F: Fn(&Board, PlayerIndicator) -> isize>(
    f: F,
    me: PlayerIndicator,
    board: Board,
    depth: nat,
    alpha: isize,
    beta: isize,
    maximizing: bool,
)
    requires
        is_evaluator(f),
        alpha < beta,
    ensures
        ({
            let exact = minimax(f, me, board, depth, maximizing);
            let found = alpha_beta(f, me, board, depth, alpha, beta, maximizing);
            &&& alpha < exact.0 < beta ==> found == exact
            &&& exact.0 <= alpha ==> found.0 <= alpha
            &&& exact.0 >= beta ==> found.0 >= beta
        }),
    decreases depth, board.legal_moves().len() + 1,
{
    if depth == 0 || board.legal_moves().len() == 0 {
    } else {
        let start = (worst(maximizing), None::<Coord>);
        lemma_alpha_beta_over(f, me, board, depth, alpha, beta, alpha, beta, maximizing, board.legal_moves(), start, start);
    }
}

/// How the two searches stand to each other in the middle of a node that was
/// entered with the window from `alpha0` to `beta0`: the side of the window
/// that belongs to the player who moves has followed the best exact value, the
/// best value of the alpha-beta search has not passed it, and once an exact value lies
/// inside the window both searches hold the same value and move.
pub open spec fn in_step(
    alpha0: isize,
    beta0: isize,
    alpha: isize,
    beta: isize,
    maximizing: bool,
    exact: (isize, Option<Coord>),
    pruned: (isize, Option<Coord>),
) -> bool {
    if maximizing {
        &&& beta == beta0
        &&& alpha == (if exact.0 > alpha0 { exact.0 } else { alpha0 })
        &&& pruned.0 <= alpha
        &&& exact.0 > alpha0 ==> pruned == exact
    } else {
        &&& alpha == alpha0
        &&& beta == (if exact.0 < beta0 { exact.0 } else { beta0 })
        &&& pruned.0 >= beta
        &&& exact.0 < beta0 ==> pruned == exact
    }
}

/// What pruning keeps, over the moves that are left at a node.
pub proof fn lemma_alpha_beta_over<F: Fn(&Board, PlayerIndicator) -> isize>(
    f: F,
    me: PlayerIndicator,
    board: Board,
    depth: nat,
    alpha0: isize,
    beta0: isize,
    alpha: isize,
    beta: isize,
    maximizing: bool,
    moves: Seq<Coord>,
    exact: (isize, Option<Coord>),
    pruned: (isize, Option<Coord>),
)
    requires
        is_evaluator(f),
        depth > 0,
        alpha < beta,
        in_step(alpha0, beta0, alpha, beta, maximizing, exact, pruned),
    ensures
        ({
            let all = minimax_over(f, me, board, depth, maximizing, moves, exact);
            let found = alpha_beta_over(f, me, board, depth, alpha, beta, maximizing, moves, pruned);
            &&& alpha0 < all.0 < beta0 ==> found == all
            &&& all.0 <= alpha0 ==> found.0 <= alpha0
            &&& all.0 >= beta0 ==> found.0 >= beta0
        }),
    decreases depth, moves.len(),
{
    if moves.len() > 0 {
        let child = board.place(mover(me, maximizing), moves[0].0 as int, moves[0].1 as int);
        lemma_alpha_beta(f, me, child, (depth - 1) as nat, alpha, beta, !maximizing);
        let value = minimax(f, me, child, (depth - 1) as nat, !maximizing).0;
        let seen = alpha_beta(f, me, child, (depth - 1) as nat, alpha, beta, !maximizing).0;
        let exact_next = if improves(value, exact.0, maximizing) {
            (value, Some(moves[0]))
        } else {
            exact
        };
        let pruned_next = if improves(seen, pruned.0, maximizing) {
            (seen, Some(moves[0]))
        } else {
            pruned
        };
        let low = if maximizing && seen > alpha {
            seen
        } else {
            alpha
        };
        let high = if !maximizing && seen < beta {
            seen
        } else {
            beta
        };
        lemma_minimax_over(f, me, board, depth, maximizing, moves.drop_first(), exact_next);
        if low < high {
            lemma_alpha_beta_over(f, me, board, depth, alpha0, beta0, low, high, maximizing, moves.drop_first(), exact_next, pruned_next);
        }
    }
}

/// Law of the search: pruning changes nothing. From the full window, with the
/// searching player to move, alpha-beta search finds the value and the move of
/// plain minimax over the same tree, at every depth.
pub proof fn lemma_pruning_is_exact<F: Fn(&Board, PlayerIndicator) -> isize>(f: F, me: PlayerIndicator, board: Board, depth: nat)
    requires
        is_evaluator(f),
    ensures
        alpha_beta(f, me, board, depth, isize::MIN, isize::MAX, true) == minimax(f, me, board, depth, true),
{
    lemma_minimax_range(f, me, board, depth, true);
    lemma_alpha_beta(f, me, board, depth, isize::MIN, isize::MAX, true);
}

/// A player that searches the game tree: minimax with alpha-beta pruning, to
/// a fixed depth, with the scores of a static evaluator at the leaves.
#[derive(Debug)]
pub struct SmartBot<F> where F: Fn(&Board, PlayerIndicator) -> isize {
    player_id: PlayerIndicator,
    static_evaluator: F,
    recursion_limit: u32,
}

impl<F> SmartBot<F> where F: Fn(&Board, PlayerIndicator) -> isize {
    #[verifier::type_invariant]
    spec fn searches(&self) -> bool {
        is_evaluator(self.static_evaluator) && self.recursion_limit > 0
    }

    /// The side that the bot plays.
    pub closed spec fn player_id(&self) -> PlayerIndicator {
        self.player_id
    }

    /// The evaluator that scores the leaves.
    pub closed spec fn evaluator(&self) -> F {
        self.static_evaluator
    }

    /// Number of plies that the bot looks ahead.
    pub closed spec fn depth(&self) -> nat {
        self.recursion_limit as nat
    }

    /// A bot for the side `player_id` that looks `recursion_limit` plies
    /// ahead.
    pub fn new(player_id: PlayerIndicator, static_evaluator: F, recursion_limit: u32) -> (bot: Self)
        requires
            is_evaluator(static_evaluator),
            recursion_limit > 0,
        ensures
            bot.player_id() == player_id,
            bot.evaluator() == static_evaluator,
            bot.depth() == recursion_limit,
    {
        Self { player_id, static_evaluator, recursion_limit }
    }

    /// Whether `coords` is the move of the bot on `board`: the move of plain
    /// minimax at the depth of the bot.
    pub open spec fn chooses(&self, board: Board, coords: Coord) -> bool {
        minimax(self.evaluator(), self.player_id(), board, self.depth(), true).1 == Some(coords)
    }

    /// Law of the bot: its move is a function of the position. Two answers to
    /// the same position are the same coordinate, whatever the bot is told of
    /// the move before; the position needs an empty cell and no more.
    pub proof fn lemma_decides_alike(&self, board: Board, first: Coord, second: Coord)
        requires
            self.chooses(board, first),
            self.chooses(board, second),
        ensures
            first == second,
    {
    }

    /// Whether the bot plays the same side with the same evaluator to the
    /// same depth as `other`.
    pub open spec fn same_bot(&self, other: &Self) -> bool {
        &&& self.player_id() == other.player_id()
        &&& self.evaluator() == other.evaluator()
        &&& self.depth() == other.depth()
    }

    /// What the bot is as a player, for every evaluator: it answers without
    /// end, it needs an empty cell, and its answer to a position is its move
    /// there, with the bot as it was. The definitions say so for a bot of any
    /// evaluator; a caller that holds a bot with one given evaluator does not
    /// see through them and learns it here.
    pub proof fn lemma_as_player(&self)
        ensures
            forall|turns: nat| #[trigger] self.can_answer(turns),
            self.needs_room(),
            forall|board: Board, last_move: Option<Coord>, coords: Coord, after: &Self| #[trigger]
                self.answers(board, last_move, coords, after) <==> self.chooses(board, coords) && board.legal_moves().contains(coords)
                    && after.same_bot(self),
    {
    }

    /// The move of the bot on a board with an empty cell: found by alpha-beta
    /// search, it is the move of plain minimax, which is legal.
    pub fn minimax(&self, board: &Board) -> (coords: Coord)
        requires
            !board.full(),
        ensures
            self.chooses(*board, coords),
            board.legal_moves().contains(coords),
    {
        proof {
            use_type_invariant(self);
            board.lemma_legal_moves();
            lemma_pruning_is_exact(self.evaluator(), self.player_id(), *board, self.depth());
            lemma_minimax_range(self.evaluator(), self.player_id(), *board, self.depth(), true);
        }
        let depth = self.recursion_limit;
        let (alpha, beta) = (isize::MIN, isize::MAX);
        self.minimax_aux(board, depth, alpha, beta, true).1.unwrap()
    }

    /// The score of a position.
    fn evaluate(&self, board: &Board) -> (score: isize)
        ensures
            score == score_of(self.evaluator(), *board, self.player_id()),
            isize::MIN < score < isize::MAX,
    {
        proof {
            use_type_invariant(self);
        }
        let score = (self.static_evaluator)(board, self.player_id);
        proof {
            let chosen = score_of(self.static_evaluator, *board, self.player_id);
            assert(call_ensures(self.static_evaluator, (board, self.player_id), score));
            assert(call_ensures(self.static_evaluator, (board, self.player_id), chosen));
        }
        score
    }

    /// Value and move of a position by alpha-beta search, `depth` plies deep,
    /// inside the window from `alpha` to `beta`. The searching player moves
    /// where `maximizing` holds, the opponent elsewhere.
    pub fn minimax_aux(&self, board: &Board, depth: u32, alpha: isize, beta: isize, maximizing: bool) -> (found: (
        isize,
        Option<Coord>,
    ))
        ensures
            found == alpha_beta(self.evaluator(), self.player_id(), *board, depth as nat, alpha, beta, maximizing),
            alpha == isize::MIN && beta == isize::MAX && maximizing ==> found == minimax(
                self.evaluator(),
                self.player_id(),
                *board,
                depth as nat,
                true,
            ),
        decreases depth,
    {
        proof {
            use_type_invariant(self);
            lemma_pruning_is_exact(self.evaluator(), self.player_id(), *board, depth as nat);
        }
        if depth == 0 {
            return (self.evaluate(board), None);
        }
        let mut moves = board.possible_moves();
        let mut next = moves.next();
        if next.is_none() {
            return (self.evaluate(board), None);
        }
        let player = if maximizing {
            self.player_id
        } else {
            self.player_id.opponent()
        };
        let mut best_move: Option<Coord> = None;
        let mut best_value: isize = if maximizing {
            isize::MIN
        } else {
            isize::MAX
        };
        let mut alpha = alpha;
        let mut beta = beta;
        let ghost wanted = alpha_beta(self.evaluator(), self.player_id(), *board, depth as nat, alpha, beta, maximizing);
        proof {
            board.lemma_legal_moves();
            let all = board.legal_moves();
            assert(all =~= seq![all[0]] + all.drop_first());
            assert forall|i: int| 0 <= i < all.drop_first().len() implies all.contains(#[trigger] all.drop_first()[i]) by {
                assert(all.drop_first()[i] == all[i + 1]);
            }
        }
        while next.is_some()
            invariant
                depth > 0,
                moves.board() == *board,
                player == mover(self.player_id(), maximizing),
                next is Some ==> moves.remaining().len() < board.legal_moves().len() && board.legal_moves().contains(next->0),
                forall|i: int| 0 <= i < moves.remaining().len() ==> board.legal_moves().contains(#[trigger] moves.remaining()[i]),
                forall|c: Coord| #[trigger] board.legal_moves().contains(c) <==> in_bounds(c.0 as int, c.1 as int) && board.cell(c.0 as int, c.1 as int) is None,
                wanted == alpha_beta_over(
                    self.evaluator(),
                    self.player_id(),
                    *board,
                    depth as nat,
                    alpha,
                    beta,
                    maximizing,
                    match next {
                        Some(m) => seq![m] + moves.remaining(),
                        None => Seq::empty(),
                    },
                    (best_value, best_move),
                ),
            decreases
                    (match next {
                        Some(_) => moves.remaining().len() + 1,
                        None => 0,
                    }),
        {
            let m = next.unwrap();
            let ghost rest = moves.remaining();
            assert((seq![m] + rest)[0] == m);
            assert((seq![m] + rest).drop_first() =~= rest);
            let mut child = board.clone();
            let placed = child.make_move(player, m);
            assert(placed is Ok);
            let (value, _) = self.minimax_aux(&child, depth - 1, alpha, beta, !maximizing);
            if (maximizing && value > best_value) || (!maximizing && value < best_value) {
                best_value = value;
                best_move = Some(m);
            }
            if maximizing && value > alpha {
                alpha = value;
            } else if !maximizing && value < beta {
                beta = value;
            }
            if alpha >= beta {
                next = None;
            } else {
                next = moves.next();
                proof {
                    if rest.len() > 0 {
                        assert(rest =~= seq![rest[0]] + rest.drop_first());
                        assert(board.legal_moves().contains(rest[0]));
                        assert forall|i: int| 0 <= i < rest.drop_first().len() implies board.legal_moves().contains(#[trigger] rest.drop_first()[i]) by {
                            assert(rest.drop_first()[i] == rest[i + 1]);
                        }
                    } else {
                        assert(rest =~= Seq::<Coord>::empty());
                    }
                }
            }
        }
        (best_value, best_move)
    }
}

impl<F> Player for SmartBot<F> where F: Fn(&Board, PlayerIndicator) -> isize {
    open spec fn can_answer(&self, turns: nat) -> bool {
        true
    }

    open spec fn needs_room(&self) -> bool {
        true
    }

    open spec fn answers(&self, board: Board, last_move: Option<Coord>, coords: Coord, after: &Self) -> bool {
        self.chooses(board, coords) && board.legal_moves().contains(coords) && after.same_bot(self)
    }

    /// The move of plain minimax at the depth of the bot, which is an empty
    /// coordinate of the board, whatever the move before was. The bot itself
    /// stays as it is.
    fn decide(&mut self, board: &Board, last_move: Option<Coord>) -> (coords: Coord)
        ensures
            old(self).chooses(*board, coords),
            board.legal_moves().contains(coords),
            final(self).same_bot(old(self)),
    {
        self.minimax(board)
    }
}

} // verus!

use crate::board::{in_bounds, Board, Coord};
use crate::game::PlayerIndicator;
use vstd::prelude::*;

verus! {

/// Whether `f` is fit to score positions for a tree: it accepts every
/// position and gives one score for each.
pub open spec fn is_scorer<F: Fn(&Board, PlayerIndicator) -> i32>(f: F) -> bool {
    &&& forall|board: &Board, player: PlayerIndicator| #[trigger] call_requires(f, (board, player))
    &&& forall|board: &Board, player: PlayerIndicator, a: i32, b: i32|
        #[trigger] call_ensures(f, (board, player), a) && #[trigger] call_ensures(f, (board, player), b) ==> a == b
}

/// The score that `f` gives to a position, seen from `player`.
pub open spec fn value_of<F: Fn(&Board, PlayerIndicator) -> i32>(f: F, board: Board, player: PlayerIndicator) -> i32 {
    choose|score: i32| call_ensures(f, (&board, player), score)
}

/// The value that ends the search of a node at once: the greatest where the
/// player who moves is the one for whom the tree is scored, the least where
/// it is the opponent.
pub open spec fn closing_value(player: PlayerIndicator, scored_for: PlayerIndicator) -> i32 {
    if player == scored_for {
        i32::MAX
    } else {
        i32::MIN
    }
}

/// The value that every score is at least as good as: the least where the
/// player who moves is the one for whom the tree is scored, the greatest
/// where it is the opponent.
pub open spec fn opening_value(player: PlayerIndicator, scored_for: PlayerIndicator) -> i32 {
    if player == scored_for {
        i32::MIN
    } else {
        i32::MAX
    }
}

/// The better of two values for the player who moves: the greater where the
/// tree is scored for that player, the smaller where it is not.
pub open spec fn better_of(a: i32, b: i32, player: PlayerIndicator, scored_for: PlayerIndicator) -> i32 {
    if player == scored_for {
        if a >= b {
            a
        } else {
            b
        }
    } else {
        if a <= b {
            a
        } else {
            b
        }
    }
}

/// The minimax value of a position with `player` to move, `levels` plies
/// deep, scored for `scored_for`: the score of the position at depth 0 or
/// without a legal move, the best of the values of the moves elsewhere.
pub open spec fn node_value<F: Fn(&Board, PlayerIndicator) -> i32>(
    f: F,
    scored_for: PlayerIndicator,
    state: Board,
    player: PlayerIndicator,
    levels: nat,
) -> i32
    decreases levels, state.legal_moves().len() + 1,
{
    if levels == 0 || state.legal_moves().len() == 0 {
        value_of(f, state, scored_for)
    } else {
        best_reply(f, scored_for, state, player, levels, state.legal_moves(), opening_value(player, scored_for))
    }
}

/// The best of `best` and the values of the moves that are left at a node.
pub open spec fn best_reply<F: Fn(&Board, PlayerIndicator) -> i32>(
    f: F,
    scored_for: PlayerIndicator,
    state: Board,
    player: PlayerIndicator,
    levels: nat,
    moves: Seq<Coord>,
    best: i32,
) -> i32
    decreases levels, moves.len(),
{
    if levels == 0 || moves.len() == 0 {
        best
    } else {
        let value = node_value(f, scored_for, state.place(player, moves[0].0 as int, moves[0].1 as int), player.spec_opponent(), (levels - 1) as nat);
        best_reply(f, scored_for, state, player, levels, moves.drop_first(), better_of(best, value, player, scored_for))
    }
}

/// Nothing is better than the closing value: the moves that are left behind
/// it change nothing.
pub proof fn lemma_closed<F: Fn(&Board, PlayerIndicator) -> i32>(
    f: F,
    scored_for: PlayerIndicator,
    state: Board,
    player: PlayerIndicator,
    levels: nat,
    moves: Seq<Coord>,
)
    ensures
        best_reply(f, scored_for, state, player, levels, moves, closing_value(player, scored_for)) == closing_value(player, scored_for),
    decreases moves.len(),
{
    if levels > 0 && moves.len() > 0 {
        lemma_closed(f, scored_for, state, player, levels, moves.drop_first());
    }
}

/// The score of a position.
fn score<F: Fn(&Board, PlayerIndicator) -> i32>(evaluator: &F, board: &Board, player: PlayerIndicator) -> (score: i32)
    requires
        is_scorer(*evaluator),
    ensures
        score == value_of(*evaluator, *board, player),
{
    let score = evaluator(board, player);
    proof {
        let chosen = value_of(*evaluator, *board, player);
        assert(call_ensures(*evaluator, (board, player), score));
        assert(call_ensures(*evaluator, (board, player), chosen));
    }
    score
}

/// A node of a game tree that is kept between turns: a position, the player
/// to move, the value found for it, the window of the search at the node, and
/// the moves searched, each with the node that it leads to, in row-major
/// order of the moves.
#[derive(Debug)]
pub struct DecisionTree {
    state: Board,
    player: PlayerIndicator,
    static_value: Option<i32>,
    alpha: i32,
    beta: i32,
    children: Vec<(Coord, DecisionTree)>,
}

impl DecisionTree {
    /// Whether no two children of the node belong to the same move. A new
    /// node and a searched node are so, and a node stays so when a subtree is
    /// taken out.
    pub open spec fn distinct_moves(&self) -> bool {
        forall|i: int, j: int| 0 <= i < j < self.children().len() ==> (#[trigger] self.children()[i]).0 != (#[trigger] self.children()[j]).0
    }

    /// The position of the node.
    pub closed spec fn state(&self) -> Board {
        self.state
    }

    /// The player to move at the node.
    pub closed spec fn player(&self) -> PlayerIndicator {
        self.player
    }

    /// The value found for the node, if it was searched.
    pub closed spec fn value(&self) -> Option<i32> {
        self.static_value
    }

    /// The lower end of the window at the node.
    pub closed spec fn alpha(&self) -> i32 {
        self.alpha
    }

    /// The upper end of the window at the node.
    pub closed spec fn beta(&self) -> i32 {
        self.beta
    }

    /// The moves searched at the node, each with its subtree.
    pub closed spec fn children(&self) -> Seq<(Coord, DecisionTree)> {
        self.children@
    }

    /// Whether the node has not been searched: no value, no child, the full
    /// window.
    pub open spec fn fresh(&self) -> bool {
        &&& self.value() is None
        &&& self.alpha() == i32::MIN
        &&& self.beta() == i32::MAX
        &&& self.children().len() == 0
    }

    /// Whether child `i` is the node that move `i` of the legal moves leads
    /// to.
    pub open spec fn child_follows(&self, i: int) -> bool {
        let (coords, child) = self.children()[i];
        &&& coords == self.state().legal_moves()[i]
        &&& child.state() == self.state().place(self.player(), coords.0 as int, coords.1 as int)
        &&& child.player() == self.player().spec_opponent()
    }

    /// Whether the node holds a search `levels` plies deep, scored for
    /// `scored_for` by `f`. Its value is the minimax value of its position.
    /// At depth 0 and without a legal move it has no children. Elsewhere its
    /// children are the legal moves in row-major order, each searched one ply
    /// less deep, up to the first move whose value is the closing value, and
    /// all of them where there is none. The side of the window that belongs
    /// to the player who moves holds the value; the other side is as it was.
    pub open spec fn searched<F: Fn(&Board, PlayerIndicator) -> i32>(&self, f: F, scored_for: PlayerIndicator, levels: nat) -> bool
        decreases levels,
    {
        let moves = self.state().legal_moves();
        let kids = self.children();
        let closing = closing_value(self.player(), scored_for);
        &&& self.value() == Some(node_value(f, scored_for, self.state(), self.player(), levels))
        &&& if levels == 0 || moves.len() == 0 {
            &&& kids.len() == 0
            &&& self.alpha() == i32::MIN
            &&& self.beta() == i32::MAX
        } else {
            &&& 1 <= kids.len() <= moves.len()
            &&& forall|i: int| 0 <= i < kids.len() ==> #[trigger] self.child_follows(i) && kids[i].1.searched(f, scored_for, (levels - 1) as nat)
            &&& forall|i: int| 0 <= i < kids.len() - 1 ==> (#[trigger] kids[i]).1.value() != Some(closing)
            &&& kids.len() < moves.len() ==> kids.last().1.value() == Some(closing)
            &&& self.alpha() == (if self.player() == scored_for { self.value()->0 } else { i32::MIN })
            &&& self.beta() == (if self.player() == scored_for { i32::MAX } else { self.value()->0 })
        }
    }

    /// Searches the node `remaining_levels` plies deep and scores it for
    /// `player` by `evaluator`. What the node held of an earlier search is
    /// dropped first.
    pub fn deepen<F>(&mut self, evaluator: &F, remaining_levels: u32, player: PlayerIndicator) where
        F: Fn(&Board, PlayerIndicator) -> i32,

        requires
            is_scorer(*evaluator),
        ensures
            final(self).state() == old(self).state(),
            final(self).player() == old(self).player(),
            final(self).searched(*evaluator, player, remaining_levels as nat),
            final(self).distinct_moves(),
        decreases remaining_levels,
    {
        self.static_value = None;
        self.alpha = i32::MIN;
        self.beta = i32::MAX;
        self.children = Vec::new();
        let mut moves = self.state.possible_moves();
        let mut next = moves.next();
        if remaining_levels == 0 || next.is_none() {
            self.static_value = Some(score(evaluator, &self.state, player));
            return ;
        }
        let ghost all = self.state.legal_moves();
        let ghost levels = remaining_levels as nat;
        let ghost opening = opening_value(self.player, player);
        let ghost closing = closing_value(self.player, player);
        let ghost mut best = opening;
        proof {
            self.state.lemma_legal_moves();
            assert(all.skip(0) =~= all);
            assert(all.skip(1) =~= all.drop_first());
        }
        while next.is_some()
            invariant
                remaining_levels > 0,
                levels == remaining_levels as nat,
                is_scorer(*evaluator),
                self.state() == old(self).state(),
                self.player() == old(self).player(),
                all == self.state().legal_moves(),
                all.len() > 0,
                opening == opening_value(self.player(), player),
                closing == closing_value(self.player(), player),
                moves.board() == self.state(),
                self.children().len() <= all.len(),
                all.no_duplicates(),
                self.distinct_moves(),
                forall|c: Coord| #[trigger] all.contains(c) <==> in_bounds(c.0 as int, c.1 as int) && self.state().cell(c.0 as int, c.1 as int) is None,
                next is Some ==> self.children().len() < all.len() && next->0 == all[self.children().len() as int] && moves.remaining() == all.skip(
                    self.children().len() as int + 1,
                ),
                forall|i: int| 0 <= i < self.children().len() ==> #[trigger] self.child_follows(i) && self.children()[i].1.searched(*evaluator, player, (levels - 1) as nat),
                forall|i: int| 0 <= i < self.children().len() - 1 ==> (#[trigger] self.children()[i]).1.value() != Some(closing),
                next is Some ==> best != closing,
                next is None ==> self.children().len() >= 1 && (self.children().len() == all.len() || best == closing),
                self.children().len() >= 1 ==> self.value() == Some(best),
                self.children().len() >= 1 && best == closing ==> self.children().last().1.value() == Some(closing),
                self.children().len() >= 1 && best != closing ==> self.children().last().1.value() != Some(closing),
                self.children().len() == 0 ==> best == opening,
                self.alpha() == (if self.player() == player { best } else { i32::MIN }),
                self.beta() == (if self.player() == player { i32::MAX } else { best }),
                node_value(*evaluator, player, self.state(), self.player(), levels) == best_reply(
                    *evaluator,
                    player,
                    self.state(),
                    self.player(),
                    levels,
                    all.skip(self.children().len() as int),
                    best,
                ),
            decreases all.len() - self.children().len() + (if next is Some { 1int } else { 0int }),
        {
            let next_move = next.unwrap();
            let ghost n = self.children().len() as int;
            let ghost before = *self;
            let ghost kids = self.children();
            proof {
                assert(all.contains(next_move));
                assert(all.skip(n)[0] == next_move);
                assert(all.skip(n).drop_first() =~= all.skip(n + 1));
            }
            let mut next_state = self.state.clone();
            let placed = next_state.make_move(self.player, next_move);
            assert(placed is Ok);
            let mut child = DecisionTree::new(next_state, self.player.opponent());
            child.deepen(evaluator, remaining_levels - 1, player);
            if let Some(value) = child.static_value {
                if self.player == player {
                    if value > self.alpha {
                        self.alpha = value;
                    }
                    self.static_value = Some(self.alpha);
                } else {
                    if value < self.beta {
                        self.beta = value;
                    }
                    self.static_value = Some(self.beta);
                }
                proof {
                    best = better_of(best, value, self.player, player);
                }
            }
            self.children.push((next_move, child));
            proof {
                assert forall|i: int| 0 <= i < self.children().len() implies #[trigger] self.child_follows(i) && self.children()[i].1.searched(
                    *evaluator,
                    player,
                    (levels - 1) as nat,
                ) by {
                    if i < n {
                        assert(self.children()[i] == kids[i]);
                        assert(before.child_follows(i));
                    } else {
                        assert(self.children()[i] == (next_move, child));
                    }
                }
                assert forall|i: int, j: int| 0 <= i < j < self.children().len() implies (#[trigger] self.children()[i]).0 != (
                #[trigger] self.children()[j]).0 by {
                    assert(self.child_follows(i) && self.child_follows(j));
                }
            }
            if self.alpha >= self.beta {
                next = None;
                proof {
                    lemma_closed(*evaluator, player, self.state(), self.player(), levels, all.skip(n + 1));
                }
            } else {
                next = moves.next();
                proof {
                    if n + 1 < all.len() {
                        assert(all.skip(n + 1)[0] == all[n + 1]);
                        assert(all.skip(n + 1).drop_first() =~= all.skip(n + 2));
                    } else {
                        assert(all.skip(n + 1) =~= Seq::<Coord>::empty());
                    }
                }
            }
        }
        proof {
            let n = self.children().len() as int;
            if n == all.len() {
                assert(all.skip(n) =~= Seq::<Coord>::empty());
            } else {
                lemma_closed(*evaluator, player, self.state(), self.player(), levels, all.skip(n));
            }
        }
    }

    /// The value found for the node, if it was searched.
    pub fn static_value(&self) -> (value: Option<i32>)
        ensures
            value == self.value(),
    {
        self.static_value
    }

    /// Whether some child has a value.
    pub open spec fn has_valued_child(&self) -> bool {
        exists|i: int| 0 <= i < self.children().len() && (#[trigger] self.children()[i]).1.value() is Some
    }

    /// Whether child `i` is the one to play: it has a value, no child has a
    /// greater one, and every child before it has a smaller one or none.
    pub open spec fn is_best_child(&self, i: int) -> bool {
        &&& 0 <= i < self.children().len()
        &&& self.children()[i].1.value() is Some
        &&& forall|j: int| 0 <= j < self.children().len() && (#[trigger] self.children()[j]).1.value() is Some
            ==> self.children()[j].1.value()->0 <= self.children()[i].1.value()->0
        &&& forall|j: int| 0 <= j < i && (#[trigger] self.children()[j]).1.value() is Some
            ==> self.children()[j].1.value()->0 < self.children()[i].1.value()->0
    }

    /// The move to the child with the greatest value, the first of them where
    /// several have it.
    pub fn decide(&self) -> (coords: Coord)
        requires
            self.has_valued_child(),
        ensures
            exists|i: int| self.is_best_child(i) && #[trigger] self.children()[i].0 == coords,
    {
        let mut best: Option<(usize, i32)> = None;
        let mut k: usize = 0;
        while k < self.children.len()
            invariant
                k <= self.children.len(),
                best is None ==> forall|j: int| 0 <= j < k ==> (#[trigger] self.children()[j]).1.value() is None,
                best is Some ==> {
                    let (i, top) = best->0;
                    &&& i < k
                    &&& self.children()[i as int].1.value() == Some(top)
                    &&& forall|j: int| 0 <= j < k && (#[trigger] self.children()[j]).1.value() is Some ==> self.children()[j].1.value()->0 <= top
                    &&& forall|j: int| 0 <= j < i && (#[trigger] self.children()[j]).1.value() is Some ==> self.children()[j].1.value()->0 < top
                },
            decreases self.children.len() - k,
        {
            if let Some(value) = self.children[k].1.static_value {
                let better = match best {
                    Some((_, top)) => value > top,
                    None => true,
                };
                if better {
                    best = Some((k, value));
                }
            }
            k += 1;
        }
        let (i, _) = best.unwrap();
        assert(self.is_best_child(i as int));
        self.children[i].0
    }

    /// Whether child `i` is the first child for the move `coords`.
    pub open spec fn is_child_for(&self, coords: Coord, i: int) -> bool {
        &&& 0 <= i < self.children().len()
        &&& self.children()[i].0 == coords
        &&& forall|j: int| 0 <= j < i ==> (#[trigger] self.children()[j]).0 != coords
    }

    /// Takes the subtree for the move `coords` out of the node. Where the move
    /// is not among the children the node stays as it is and the answer is
    /// `None`.
    pub fn extract_subtree(&mut self, coords: &Coord) -> (subtree: Option<DecisionTree>)
        ensures
            final(self).state() == old(self).state(),
            final(self).player() == old(self).player(),
            final(self).value() == old(self).value(),
            final(self).alpha() == old(self).alpha(),
            final(self).beta() == old(self).beta(),
            old(self).distinct_moves() ==> final(self).distinct_moves(),
            match subtree {
                Some(child) => exists|i: int| #[trigger] old(self).is_child_for(*coords, i) && old(self).children()[i].1 == child
                    && final(self).children() == old(self).children().remove(i),
                None => final(self).children() == old(self).children()
                    && forall|i: int| 0 <= i < old(self).children().len() ==> (#[trigger] old(self).children()[i]).0 != *coords,
            },
    {
        let mut k: usize = 0;
        while k < self.children.len()
            invariant
                *self == *old(self),
                k <= self.children.len(),
                forall|j: int| 0 <= j < k ==> (#[trigger] self.children()[j]).0 != *coords,
            decreases self.children.len() - k,
        {
            if self.children[k].0.0 == coords.0 && self.children[k].0.1 == coords.1 {
                assert(old(self).is_child_for(*coords, k as int));
                let (_, child) = self.children.remove(k);
                return Some(child);
            }
            k += 1;
        }
        None
    }

    /// A node that was searched at least one ply deep, on a position with a
    /// legal move, has a child with a value.
    pub proof fn lemma_searched_has_valued_child<F: Fn(&Board, PlayerIndicator) -> i32>(&self, f: F, scored_for: PlayerIndicator, levels: nat)
        requires
            self.searched(f, scored_for, levels),
            levels > 0,
            !self.state().full(),
        ensures
            self.has_valued_child(),
    {
        self.state().lemma_legal_moves();
        assert(self.child_follows(0));
        assert(self.children()[0].1.searched(f, scored_for, (levels - 1) as nat));
    }

    /// A node for a position, not yet searched.
    pub fn new(state: Board, player: PlayerIndicator) -> (tree: DecisionTree)
        ensures
            tree.state() == state,
            tree.player() == player,
            tree.fresh(),
            tree.distinct_moves(),
    {
        DecisionTree { state, player, static_value: None, alpha: i32::MIN, beta: i32::MAX, children: Vec::new() }
    }
}

impl Default for DecisionTree {
    /// The node of the empty board with Player1 to move.
    fn default() -> (tree: DecisionTree)
        ensures
            tree.state() == Board::empty(),
            tree.player() == PlayerIndicator::Player1,
            tree.fresh(),
            tree.distinct_moves(),
    {
        DecisionTree::new(Board::default(), PlayerIndicator::Player1)
    }
}

} // verus!

use crate::board::{Board, Coord, BOARD_SIZE};
use crate::coordinates::{coordinates_from_hex_str, parse_coordinates};
use rand::Rng;
use vstd::prelude::*;
use vstd::string::StringExecFns;

verus! {

/// Whoever chooses the moves of one side.
pub trait Player {
    /// Whether the player can be asked for `turns` more moves. A player is
    /// taken to answer without end unless it says otherwise.
    open spec fn can_answer(&self, turns: nat) -> bool {
        true
    }

    /// Whether the player must not be asked on a full board. A player is
    /// taken to need an empty cell unless it says otherwise.
    open spec fn needs_room(&self) -> bool {
        true
    }

    /// Whether `coords` is an answer of the player to the position `board`
    /// with `last_move` as the move before, and `after` the player once it
    /// has answered. A player may answer anything unless it says otherwise.
    open spec fn answers(&self, board: Board, last_move: Option<Coord>, coords: Coord, after: &Self) -> bool {
        true
    }

    /// The coordinate that the player wants to play on `board`, after
    /// `last_move`. Whether the move can be made is for the one who asks to
    /// find out.
    fn decide(&mut self, board: &Board, last_move: Option<Coord>) -> (coords: Coord)
        requires
            exists|turns: nat| turns > 0 && #[trigger] old(self).can_answer(turns),
            old(self).needs_room() ==> !board.full(),
        ensures
            forall|turns: nat| old(self).can_answer(turns + 1) ==> #[trigger] final(self).can_answer(turns),
            old(self).answers(*board, last_move, coords, final(self)),
    ;
}

/// Whether the player can be asked for a move: it can answer some number of
/// requests, and at least one.
pub open spec fn ready<P: Player>(player: P) -> bool {
    exists|turns: nat| turns > 0 && #[trigger] player.can_answer(turns)
}

/// Whether a character is white space: one of the 25 characters that
/// Unicode gives the property `White_Space`.
pub open spec fn is_white_space(c: char) -> bool {
    let code = c as u32;
    ||| 0x09 <= code <= 0x0D
    ||| code == 0x20
    ||| code == 0x85
    ||| code == 0xA0
    ||| code == 0x1680
    ||| 0x2000 <= code <= 0x200A
    ||| code == 0x2028
    ||| code == 0x2029
    ||| code == 0x202F
    ||| code == 0x205F
    ||| code == 0x3000
}

/// The place of the first character at or behind `from` that is not white
/// space, or the length of the text where there is none.
pub open spec fn ink_from(text: Seq<char>, from: int) -> int
    decreases text.len() - from,
{
    if from < 0 || from >= text.len() {
        text.len() as int
    } else if !is_white_space(text[from]) {
        from
    } else {
        ink_from(text, from + 1)
    }
}

/// The place behind the last character before `to` that is not white space,
/// or 0 where there is none.
pub open spec fn ink_until(text: Seq<char>, to: int) -> int
    decreases to,
{
    if to <= 0 || to > text.len() {
        0
    } else if !is_white_space(text[to - 1]) {
        to
    } else {
        ink_until(text, to - 1)
    }
}

/// What is left of a text once the white space at its two ends is taken
/// away: the part from its first to its last character that is not white
/// space, and nothing where all of it is white space.
pub open spec fn trimmed(text: Seq<char>) -> Seq<char> {
    let start = ink_from(text, 0);
    let end = ink_until(text, text.len() as int);
    if start < end {
        text.subrange(start, end)
    } else {
        Seq::empty()
    }
}

/// `str::trim` returns the part of a text between its leading and its
/// trailing white space, where white space is what the Unicode property
/// `White_Space` says it is.
#[verifier::external_body]
fn trim(text: &str) -> (middle: &str)
    ensures
        middle@ == trimmed(text@),
{
    text.trim()
}

/// A person who types the moves. Asking and reading are left to the program;
/// what the person typed is understood here.
#[derive(Debug)]
pub struct Human {
    name: String,
}

impl Human {
    /// The name of the person.
    pub closed spec fn name_text(&self) -> Seq<char> {
        self.name@
    }

    /// A person of the given name.
    pub fn new(name: &str) -> (human: Human)
        ensures
            human.name_text() == name@,
    {
        Human { name: name.to_owned() }
    }

    /// The name of the person.
    pub fn name(&self) -> (name: &str)
        ensures
            name@ == self.name_text(),
    {
        self.name.as_str()
    }

    /// The words that ask the person for a move.
    pub fn prompt(&self) -> (text: String)
        ensures
            text@ == self.name_text() + ", insert your next move ([0-E],[0-E]): "@,
    {
        let mut text = self.name.clone();
        text.append(", insert your next move ([0-E],[0-E]): ");
        text
    }

    /// The move that a typed line asks for: the line without the white space
    /// at its ends, read as two numbers in base 16 with a comma between them.
    /// `None` where the line is no such text.
    pub fn understand(&self, line: &str) -> (coords: Option<Coord>)
        ensures
            coords == (match parse_coordinates(trimmed(line@), true) {
                Ok(pair) => Some(pair),
                Err(_) => None,
            }),
    {
        match coordinates_from_hex_str(trim(line)) {
            Ok(coords) => Some(coords),
            Err(_) => None,
        }
    }
}

/// A player that plays a list of moves, one after the other.
pub struct TestBot {
    moves: Vec<Coord>,
    played: usize,
}

impl TestBot {
    #[verifier::type_invariant]
    spec fn within_script(&self) -> bool {
        self.played <= self.moves.len()
    }

    /// The moves that the bot has yet to play, the next one first.
    pub closed spec fn script(&self) -> Seq<Coord> {
        self.moves@.skip(self.played as int)
    }

    /// A bot that plays `moves` from the first to the last.
    pub fn new(moves: Vec<Coord>) -> (bot: TestBot)
        ensures
            bot.script() == moves@,
    {
        let bot = TestBot { moves, played: 0 };
        assert(bot.moves@.skip(0) =~= bot.moves@);
        bot
    }
}

impl Player for TestBot {
    open spec fn can_answer(&self, turns: nat) -> bool {
        turns <= self.script().len()
    }

    open spec fn needs_room(&self) -> bool {
        false
    }

    open spec fn answers(&self, board: Board, last_move: Option<Coord>, coords: Coord, after: &Self) -> bool {
        self.script().len() > 0 && coords == self.script()[0] && after.script() == self.script().drop_first()
    }

    /// The next move of the list, whatever the board.
    fn decide(&mut self, board: &Board, last_move: Option<Coord>) -> (coords: Coord)
        ensures
            coords == old(self).script()[0],
            final(self).script() == old(self).script().drop_first(),
    {
        proof {
            use_type_invariant(&*self);
        }
        let coords = self.moves[self.played];
        self.played = self.played + 1;
        assert(self.script() =~= old(self).script().drop_first());
        coords
    }
}

/// `rand::rngs::ThreadRng`, the handle to the random number generator of a
/// thread. Values of it are passed on and never looked into.
#[verifier::external_type_specification]
#[verifier::external_body]
pub struct ExThreadRng(rand::rngs::ThreadRng);

/// `rand::thread_rng` hands out the random number generator of the calling
/// thread. Nothing is claimed of it. (It panics where the system gives it no
/// entropy to start from.)
pub assume_specification[ rand::thread_rng ]() -> (rng: rand::rngs::ThreadRng)
;

/// `Rng::gen_range` draws a number from `low` up to, but without, `high`. It
/// panics unless `low` is below `high`. Which number comes is left open: two
/// calls with the same bounds may differ.
#[verifier::external_body]
fn random_in_range(rng: &mut rand::rngs::ThreadRng, low: usize, high: usize) -> (drawn: usize)
    requires
        low < high,
    ensures
        low <= drawn < high,
{
    rng.gen_range(low, high)
}

/// A player that picks a coordinate of the board at random, occupied or not.
pub struct RandomBot;

impl Player for RandomBot {
    open spec fn can_answer(&self, turns: nat) -> bool {
        true
    }

    open spec fn needs_room(&self) -> bool {
        false
    }

    open spec fn answers(&self, board: Board, last_move: Option<Coord>, coords: Coord, after: &Self) -> bool {
        coords.0 < BOARD_SIZE && coords.1 < BOARD_SIZE
    }

    /// Some coordinate of the board.
    fn decide(&mut self, board: &Board, last_move: Option<Coord>) -> (coords: Coord)
        ensures
            coords.0 < BOARD_SIZE,
            coords.1 < BOARD_SIZE,
    {
        let mut rng = rand::thread_rng();
        let row = random_in_range(&mut rng, 0, 15);
        let col = random_in_range(&mut rng, 0, 15);
        (row, col)
    }
}

} // verus!

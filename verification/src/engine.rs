//! The shared game and its external rules engine. The engine owns move
//! legality and the position; this library mirrors whose turn it is as a
//! plain value, refreshed from the engine after every move, and keeps a
//! ghost history of every notation handed to the engine, so that reply
//! and dispatch contracts can speak about both.

use vstd::prelude::*;
use vstd::utf8::is_ascii_chars;

use chess_engine::Evaluate;

verus! {

/// The side to move, mirrored from the rules engine.
#[derive(Clone, Copy, Debug, PartialEq, Eq, Structural)]
pub enum Side {
    White,
    Black,
}

#[verifier::external_type_specification]
#[verifier::external_body]
pub struct ExBoard(chess_engine::Board);

#[verifier::external_type_specification]
#[verifier::external_body]
pub struct ExMove(chess_engine::Move);

/// Whether the rules engine's parser accepts this text as a move. The
/// engine decides; the result depends on the text alone.
pub uninterp spec fn parses(s: Seq<char>) -> bool;

/// Relies on `chess_engine::Board::default`, whose starting position has
/// White to move, and on `Board::get_turn_color` reading that side back.
#[verifier::external_body]
fn board_start() -> (r: (chess_engine::Board, Side))
    ensures
        r.1 == Side::White,
{
    let board = chess_engine::Board::default();
    let side = match board.get_turn_color() {
        chess_engine::Color::White => Side::White,
        chess_engine::Color::Black => Side::Black,
    };
    (board, side)
}

/// Relies on `chess_engine::Move::parse`, which reads one move from text
/// notation, fails on text it does not recognize, and succeeds or fails
/// on the notation alone. It slices a four-byte word by byte index, which
/// panics when the text is not ASCII, so only ASCII notation is admitted.
#[verifier::external_body]
fn parse_move(notation: &str) -> (m: Option<chess_engine::Move>)
    requires
        is_ascii_chars(notation@),
    ensures
        m is Some <==> parses(notation@),
{
    chess_engine::Move::parse(notation.to_string()).ok()
}

/// Relies on `chess_engine::Board::play_move`, which reports an illegal
/// move without changing anything and returns the successor position
/// while play continues, and on `Evaluate::apply_eval_move` — the same
/// successor `play_move` computes — for a legal move that ends the game,
/// where `play_move` returns only the verdict.
#[verifier::external_body]
fn board_play(board: &mut chess_engine::Board, m: chess_engine::Move) -> (ok: bool) {
    match board.play_move(m) {
        chess_engine::GameResult::Continuing(next) => { *board = next; true },
        chess_engine::GameResult::Victory(_) => { *board = board.apply_eval_move(m); true },
        chess_engine::GameResult::Stalemate => { *board = board.apply_eval_move(m); true },
        chess_engine::GameResult::IllegalMove(_) => false,
    }
}

/// Relies on `chess_engine::Board::get_turn_color`: the side the engine
/// expects to move next.
#[verifier::external_body]
fn board_turn(board: &chess_engine::Board) -> (s: Side) {
    match board.get_turn_color() {
        chess_engine::Color::White => Side::White,
        chess_engine::Color::Black => Side::Black,
    }
}

/// The single authoritative game: the engine's position, a mirror of
/// whose turn it is, and the history of notations handed to the engine.
pub struct GameState {
    board: chess_engine::Board,
    to_move: Side,
    handed_log: Ghost<Seq<Seq<char>>>,
}

impl GameState {
    /// The side to move, as last reported by the rules engine.
    pub closed spec fn turn(&self) -> Side {
        self.to_move
    }

    /// Every notation handed to the rules engine so far, oldest first.
    pub closed spec fn handed(&self) -> Seq<Seq<char>> {
        self.handed_log@
    }

    /// Starts a fresh game in the engine's starting position: White to
    /// move, nothing handed to the engine yet.
    pub fn new() -> (g: GameState)
        ensures
            g.turn() == Side::White,
            g.handed() == Seq::<Seq<char>>::empty(),
    {
        let (board, to_move) = board_start();
        GameState { board, to_move, handed_log: Ghost(Seq::empty()) }
    }

    /// Reads the mirrored side to move.
    pub fn side_to_move(&self) -> (s: Side)
        ensures
            s == self.turn(),
    {
        self.to_move
    }

    /// Hands one move in text notation to the rules engine, exactly once,
    /// and reports whether the engine accepted it: never when the
    /// notation is not ASCII or does not parse, and otherwise as the
    /// engine's legality check decides. Whatever the outcome, the mirror
    /// of the side to move is refreshed from the engine.
    pub fn apply_move(&mut self, notation: &str) -> (ok: bool)
        ensures
            final(self).handed() == old(self).handed().push(notation@),
            ok ==> is_ascii_chars(notation@) && parses(notation@),
    {
        self.handed_log = Ghost(self.handed_log@.push(notation@));
        let ok = if notation.is_ascii() {
            match parse_move(notation) {
                Some(m) => board_play(&mut self.board, m),
                None => false,
            }
        } else {
            false
        };
        self.to_move = board_turn(&self.board);
        ok
    }
}

} // verus!

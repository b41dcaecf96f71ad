//! Refereeing a game between two engines: the rules that end a game, the clocks,
//! and the moves the engines answer with. Talking to the engines is left to the
//! caller, which hands each reply to `GameState::apply_reply`.
use vstd::prelude::*;
use vstd::string::{StringExecFns, StringSliceAdditionalSpecFns};
use crate::board::Board;
use crate::fen::{board_matches, fen_spec};
use crate::search::{made, restored_but_accumulator};
use crate::text::{chars_of, same_chars};
use crate::types::{Color, Move, MoveList, Undo, START_FEN};
use crate::uci::play_uci_move;
use crate::uci_io::{answers, uci_request};

verus! {

/// How a game ended for the two sides.
#[derive(Copy, Clone, Debug, PartialEq, Eq, Structural)]
pub enum GameResult {
    WhiteWin,
    BlackWin,
    Draw,
}

/// Why a game ended.
#[derive(Copy, Clone, Debug, PartialEq, Eq, Structural)]
pub enum GameEndReason {
    Checkmate,
    Stalemate,
    Repetition,
    FiftyMoveRule,
    MoveLimitExceeded,
    IllegalMove,
    EngineCrash,
    FlagFall,
}

impl GameEndReason {
    pub open spec fn spec_text(self) -> Seq<char> {
        match self {
            GameEndReason::Checkmate => "checkmate"@,
            GameEndReason::Stalemate => "stalemate"@,
            GameEndReason::Repetition => "repetition"@,
            GameEndReason::FiftyMoveRule => "50-move rule"@,
            GameEndReason::MoveLimitExceeded => "move limit"@,
            GameEndReason::IllegalMove => "illegal move"@,
            GameEndReason::EngineCrash => "engine crash"@,
            GameEndReason::FlagFall => "flag fall"@,
        }
    }

    /// The reason in words, as game reports print it.
    pub fn to_text(&self) -> (s: String)
        ensures
            s@ == self.spec_text(),
    {
        match self {
            GameEndReason::Checkmate => String::from_str("checkmate"),
            GameEndReason::Stalemate => String::from_str("stalemate"),
            GameEndReason::Repetition => String::from_str("repetition"),
            GameEndReason::FiftyMoveRule => String::from_str("50-move rule"),
            GameEndReason::MoveLimitExceeded => String::from_str("move limit"),
            GameEndReason::IllegalMove => String::from_str("illegal move"),
            GameEndReason::EngineCrash => String::from_str("engine crash"),
            GameEndReason::FlagFall => String::from_str("flag fall"),
        }
    }
}

/// The result, the reason, and the number of plies played.
#[derive(Copy, Clone, Debug, PartialEq, Eq, Structural)]
pub struct GameOutcome {
    pub result: GameResult,
    pub reason: GameEndReason,
    pub move_count: usize,
}

/// The clocks (base and increment in milliseconds), the move limit (in full
/// moves), and the position to start from (the start position when none).
pub struct GameConfig {
    pub base_time_ms: u64,
    pub increment_ms: u64,
    pub max_moves: usize,
    pub start_fen: Option<String>,
}

/// The result when the side to move loses.
pub open spec fn loss_for(turn: Color) -> GameResult {
    if turn == Color::White {
        GameResult::BlackWin
    } else {
        GameResult::WhiteWin
    }
}

fn side_loses(turn: Color) -> (r: GameResult)
    ensures
        r == loss_for(turn),
{
    if turn == Color::White {
        GameResult::BlackWin
    } else {
        GameResult::WhiteWin
    }
}

/// The side to move is in check: its king (the lowest, if several) is attacked.
pub open spec fn in_check(b: Board) -> bool {
    exists|k: int| b.first_king_of(b.turn, k) && b.attacked(k, b.turn.spec_other())
}

/// Whether the side to move is in check.
pub fn is_in_check(b: &Board) -> (r: bool)
    requires
        b.bb_wf(),
    ensures
        r == in_check(*b),
{
    match b.first_king_sq_of(b.turn) {
        Some(k) => b.is_square_attacked(k as i32, b.turn.other()),
        None => false,
    }
}

/// The side to move has no legal move.
pub open spec fn no_moves(b: Board) -> bool {
    forall|m: Move| !b.legal_move(m)
}

/// How a position ends the game, checked in this order: the move limit (`ply / 2`
/// full moves reached), no legal move (checkmate when in check, else stalemate), a
/// third occurrence, fifty moves without capture or pawn move.
pub open spec fn game_end(b: Board, ply: usize, max_moves: usize) -> Option<GameOutcome> {
    if ply / 2 >= max_moves {
        Some(GameOutcome { result: GameResult::Draw, reason: GameEndReason::MoveLimitExceeded, move_count: ply })
    } else if no_moves(b) {
        if in_check(b) {
            Some(GameOutcome { result: loss_for(b.turn), reason: GameEndReason::Checkmate, move_count: ply })
        } else {
            Some(GameOutcome { result: GameResult::Draw, reason: GameEndReason::Stalemate, move_count: ply })
        }
    } else if b.spec_repetitions() >= 2 {
        Some(GameOutcome { result: GameResult::Draw, reason: GameEndReason::Repetition, move_count: ply })
    } else if b.halfmove_clock >= 100 {
        Some(GameOutcome { result: GameResult::Draw, reason: GameEndReason::FiftyMoveRule, move_count: ply })
    } else {
        None
    }
}

/// A game in progress: the board, both clocks (milliseconds, signed), the moves
/// played in UCI notation, and the number of plies.
pub struct GameState {
    pub board: Board,
    pub wtime: i64,
    pub btime: i64,
    pub moves: Vec<String>,
    pub ply: usize,
}

/// The FEN a game starts from.
pub open spec fn start_text(config: GameConfig) -> Seq<char> {
    match config.start_fen {
        Some(f) => f@,
        None => START_FEN@,
    }
}

impl GameState {
    /// The board is one the move functions accept and its history ends in its hash.
    pub open spec fn wf(&self) -> bool {
        &&& self.board.wf()
        &&& self.board.consistent()
        &&& self.board.history_ok()
        &&& self.moves@.len() == self.ply
    }

    /// A game at its start: the FEN of `config` (the start position when none) and
    /// both clocks at the base time (as a signed number). A FEN that does not read
    /// as a consistent position ends the game at once as a draw by engine crash.
    pub fn new(config: &GameConfig) -> (r: Result<GameState, GameOutcome>)
        ensures
            match r {
                Ok(s) => {
                    &&& s.wf()
                    &&& s.ply == 0
                    &&& s.wtime == config.base_time_ms as i64
                    &&& s.btime == config.base_time_ms as i64
                    &&& fen_spec(vstd::utf8::encode_utf8(start_text(*config))) matches Some(d)
                    &&& board_matches(s.board, d)
                },
                Err(o) => {
                    &&& o == GameOutcome { result: GameResult::Draw, reason: GameEndReason::EngineCrash, move_count: 0 }
                    &&& (fen_spec(vstd::utf8::encode_utf8(start_text(*config))) matches Some(d) ==> forall|x: Board|
                        board_matches(x, d) ==> !x.consistent())
                },
            },
    {
        let parsed = match &config.start_fen {
            Some(f) => Board::from_fen(f.as_str()),
            None => Board::from_fen(START_FEN),
        };
        match parsed {
            Ok(board) => {
                let base = config.base_time_ms as i64;
                Ok(GameState { board, wtime: base, btime: base, moves: Vec::new(), ply: 0 })
            },
            Err(_) => Err(GameOutcome { result: GameResult::Draw, reason: GameEndReason::EngineCrash, move_count: 0 }),
        }
    }

    /// Whether the position ends the game (see `game_end`). The board is searched
    /// for legal moves and comes back as it was.
    pub fn end_check(&mut self, max_moves: usize) -> (r: Option<GameOutcome>)
        requires
            old(self).wf(),
            old(self).board.halfmove_clock < i32::MAX,
            old(self).board.fullmove_number < i32::MAX,
        ensures
            final(self).wf(),
            restored_but_accumulator(old(self).board, final(self).board),
            final(self).board.zobrist == old(self).board.zobrist,
            final(self).wtime == old(self).wtime,
            final(self).btime == old(self).btime,
            final(self).moves@ == old(self).moves@,
            final(self).ply == old(self).ply,
            r == game_end(old(self).board, old(self).ply, max_moves),
    {
        let ghost b0 = self.board;
        if self.ply / 2 >= max_moves {
            return Some(GameOutcome { result: GameResult::Draw, reason: GameEndReason::MoveLimitExceeded, move_count: self.ply });
        }
        let mut legal = MoveList::new();
        self.board.generate_legal_moves(&mut legal);
        proof {
            crate::fen::lemma_consistent_congruent(self.board, b0);
            crate::fen::lemma_consistent_congruent(b0, b0);
            crate::movegen::lemma_attacked_determined(self.board, b0);
            assert(self.board.spec_repetitions() == b0.spec_repetitions());
        }
        if legal.is_empty() {
            proof {
                assert forall|m: Move| !b0.legal_move(m) by {
                    if b0.legal_move(m) {
                        assert(legal@.contains(m));
                    }
                }
            }
            if is_in_check(&self.board) {
                let result = side_loses(self.board.turn);
                return Some(GameOutcome { result, reason: GameEndReason::Checkmate, move_count: self.ply });
            } else {
                return Some(GameOutcome { result: GameResult::Draw, reason: GameEndReason::Stalemate, move_count: self.ply });
            }
        }
        proof {
            assert(b0.legal_move(legal@[0]));
        }
        if self.board.is_draw_by_repetition() {
            return Some(GameOutcome { result: GameResult::Draw, reason: GameEndReason::Repetition, move_count: self.ply });
        }
        if self.board.halfmove_clock >= 100 {
            return Some(GameOutcome { result: GameResult::Draw, reason: GameEndReason::FiftyMoveRule, move_count: self.ply });
        }
        None
    }

    /// The side to move forfeits for `reason` (a crashed engine, for one).
    pub fn forfeit(&self, reason: GameEndReason) -> (o: GameOutcome)
        ensures
            o == (GameOutcome { result: loss_for(self.board.turn), reason, move_count: self.ply }),
    {
        GameOutcome { result: side_loses(self.board.turn), reason, move_count: self.ply }
    }
}

/// The clock of the side to move after `elapsed` milliseconds: the time taken off
/// (wrapping at 64 bits); a clock at or below zero has fallen, else the increment
/// is added (wrapping).
pub open spec fn clock_after(clock: i64, elapsed: i64, inc: u64) -> (i64, bool) {
    let left = vstd::wrapping::i64_specs::wrapping_sub(clock, elapsed);
    if left <= 0 {
        (left, true)
    } else {
        (vstd::wrapping::i64_specs::wrapping_add(left, inc as i64), false)
    }
}

fn spend(clock: i64, elapsed: i64, inc: u64) -> (r: (i64, bool))
    ensures
        r == clock_after(clock, elapsed, inc),
{
    let left = clock.wrapping_sub(elapsed);
    if left <= 0 {
        (left, true)
    } else {
        (left.wrapping_add(inc as i64), false)
    }
}

/// The engine gave up the move: `(none)` or `0000`.
pub open spec fn null_reply(s: Seq<char>) -> bool {
    s == "(none)"@ || s == "0000"@
}

impl GameState {
    /// Takes the reply `bestmove` of the engine to move, which thought for
    /// `elapsed_ms`: its clock runs down (a fallen flag loses), a null reply or a
    /// text naming no legal move loses as an illegal move, and a legal move is played
    /// and recorded. A game at the limit of the move counters ends as a draw by the
    /// move limit.
    pub fn apply_reply(&mut self, bestmove: &str, elapsed_ms: i64, increment_ms: u64) -> (r: Option<GameOutcome>)
        requires
            old(self).wf(),
        ensures
            final(self).wf(),
            final(self).board.model == old(self).board.model,
            ({
                let white = old(self).board.turn == Color::White;
                let (left, fell) = clock_after(
                    if white { old(self).wtime } else { old(self).btime },
                    elapsed_ms,
                    increment_ms,
                );
                &&& (if white { final(self).wtime == left && final(self).btime == old(self).btime } else {
                    final(self).btime == left && final(self).wtime == old(self).wtime
                })
                &&& (fell ==> r == Some(GameOutcome { result: loss_for(old(self).board.turn), reason: GameEndReason::FlagFall, move_count: old(self).ply }))
                &&& (!fell && null_reply(bestmove@) ==> r == Some(GameOutcome { result: loss_for(old(self).board.turn), reason: GameEndReason::IllegalMove, move_count: old(self).ply }))
                &&& (!fell && !null_reply(bestmove@) && old(self).board.halfmove_clock < i32::MAX - 1
                    && old(self).board.fullmove_number < i32::MAX - 1 && old(self).ply < usize::MAX ==> match r {
                    None => {
                        &&& uci_request(bestmove.spec_bytes()) matches Some((from, to, promo))
                        &&& exists|m: Move, mid: Board, u: Undo| old(self).board.legal_move(m) && answers(m, from, to, promo)
                            && restored_but_accumulator(old(self).board, mid) && #[trigger] made(mid, final(self).board, m, u)
                        &&& final(self).ply == old(self).ply + 1
                        &&& final(self).moves@.len() == old(self).moves@.len() + 1
                        &&& final(self).moves@.last()@ == bestmove@
                        &&& final(self).moves@.drop_last() == old(self).moves@
                    },
                    Some(o) => {
                        &&& o == GameOutcome { result: loss_for(old(self).board.turn), reason: GameEndReason::IllegalMove, move_count: old(self).ply }
                        &&& match uci_request(bestmove.spec_bytes()) {
                            None => true,
                            Some((from, to, promo)) => forall|m: Move| old(self).board.legal_move(m) ==> !answers(m, from, to, promo),
                        }
                    },
                })
            }),
    {
        let white = self.board.turn == Color::White;
        let clock = if white {
            self.wtime
        } else {
            self.btime
        };
        let (left, fell) = spend(clock, elapsed_ms, increment_ms);
        if white {
            self.wtime = left;
        } else {
            self.btime = left;
        }
        if fell {
            return Some(self.forfeit(GameEndReason::FlagFall));
        }
        let text = chars_of(bestmove);
        if same_chars(&text, &chars_of("(none)")) || same_chars(&text, &chars_of("0000")) {
            return Some(self.forfeit(GameEndReason::IllegalMove));
        }
        if self.board.halfmove_clock >= i32::MAX - 1 || self.board.fullmove_number >= i32::MAX - 1
            || self.ply == usize::MAX {
            return Some(GameOutcome { result: GameResult::Draw, reason: GameEndReason::MoveLimitExceeded, move_count: self.ply });
        }
        let ghost b0 = self.board;
        match play_uci_move(&mut self.board, bestmove) {
            Some(m) => {
                let ghost moves0 = self.moves@;
                self.moves.push(String::from_str(bestmove));
                self.ply = self.ply + 1;
                proof {
                    assert(self.moves@.drop_last() =~= moves0);
                    let (mid, u) = choose|mid: Board, u: Undo| restored_but_accumulator(b0, mid) && made(mid, self.board, m, u);
                    assert(made(mid, self.board, m, u));
                }
                None
            },
            None => {
                proof {
                    crate::fen::lemma_consistent_congruent(self.board, b0);
                }
                Some(self.forfeit(GameEndReason::IllegalMove))
            },
        }
    }
}

} // verus!
